//! What a user has set for all projects: the compiler and the language that
//! new projects start with, and the text of their license.

use crate::text::str_eq;
use vstd::prelude::*;

verus! {

/// The settings of a user.
pub struct GlobalConfig {
    default_compiler: String,
    default_language: String,
    license: String,
}

/// Why a setting was refused.
#[derive(Clone, Copy, Debug, PartialEq, Eq, Structural)]
pub enum SettingError {
    /// The compiler is neither `gcc` nor `clang`.
    InvalidCompiler,
    /// The language is neither `c` nor `cpp`.
    InvalidLanguage,
    /// There is no setting of that name.
    InvalidParameter,
}

/// What the settings are after `parameter` was set to `value`, or why that
/// is refused. The settings are written as compiler, language and license.
pub open spec fn after_setting(
    before: (Seq<char>, Seq<char>, Seq<char>),
    parameter: Seq<char>,
    value: Seq<char>,
) -> Result<(Seq<char>, Seq<char>, Seq<char>), SettingError> {
    if parameter == "default_compiler"@ {
        if value == "gcc"@ || value == "clang"@ {
            Ok((value, before.1, before.2))
        } else {
            Err(SettingError::InvalidCompiler)
        }
    } else if parameter == "default_language"@ {
        if value == "c"@ || value == "cpp"@ {
            Ok((before.0, value, before.2))
        } else {
            Err(SettingError::InvalidLanguage)
        }
    } else if parameter == "license"@ {
        Ok((before.0, before.1, value))
    } else {
        Err(SettingError::InvalidParameter)
    }
}

impl GlobalConfig {
    /// The settings as compiler, language and license.
    pub closed spec fn view(&self) -> (Seq<char>, Seq<char>, Seq<char>) {
        (self.default_compiler@, self.default_language@, self.license@)
    }

    /// Settings made of the given parts.
    pub fn new(default_compiler: String, default_language: String, license: String) -> (config:
        Self)
        ensures
            config.view() == (default_compiler@, default_language@, license@),
    {
        GlobalConfig { default_compiler, default_language, license }
    }

    /// Sets `parameter` to `value`. The compiler can be set to `gcc` or
    /// `clang`, the language to `c` or `cpp`, and the license to any text;
    /// what is refused leaves the settings as they are.
    pub fn set_defaults(&mut self, parameter: &str, value: &str) -> (set: Result<(), SettingError>)
        ensures
            match after_setting(old(self).view(), parameter@, value@) {
                Ok(now) => set is Ok && final(self).view() == now,
                Err(e) => set == Err::<(), SettingError>(e) && final(self).view() == old(
                    self,
                ).view(),
            },
    {
        if str_eq(parameter, "default_compiler") {
            if str_eq(value, "gcc") || str_eq(value, "clang") {
                self.default_compiler = value.to_owned();
                Ok(())
            } else {
                Err(SettingError::InvalidCompiler)
            }
        } else if str_eq(parameter, "default_language") {
            if str_eq(value, "c") || str_eq(value, "cpp") {
                self.default_language = value.to_owned();
                Ok(())
            } else {
                Err(SettingError::InvalidLanguage)
            }
        } else if str_eq(parameter, "license") {
            self.license = value.to_owned();
            Ok(())
        } else {
            Err(SettingError::InvalidParameter)
        }
    }

    /// The compiler that new projects start with.
    pub fn get_default_compiler(&self) -> (value: String)
        ensures
            value@ == self.view().0,
    {
        self.default_compiler.clone()
    }

    /// The language that new projects start with.
    pub fn get_default_language(&self) -> (value: String)
        ensures
            value@ == self.view().1,
    {
        self.default_language.clone()
    }

    /// The text of the license of new projects.
    pub fn get_license(&self) -> (value: String)
        ensures
            value@ == self.view().2,
    {
        self.license.clone()
    }
}

} // verus!

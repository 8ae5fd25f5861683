//! What the commands of the program work on: the files that cleaning
//! removes, and the commands that bring packages up to date or back.

use crate::builder::target::{bin_path, bin_path_of, hash_file_path, hash_path_of};
use crate::text::texts;
use crate::utils::configs::{specs, Platform, TargetConfig, TargetSpec};
use crate::utils::package::{
    package_views, restore_command_of, update_command_of, Package, PackageSpec,
};
use vstd::prelude::*;

verus! {

/// The files that cleaning removes for one target.
pub struct Cleanup {
    pub hash_path: String,
    pub bin_path: String,
}

/// The path of the binary of a package's target.
pub open spec fn package_bin_of(platform: Platform, name: Seq<char>) -> Seq<char> {
    match platform {
        Platform::Windows => ".bld_cpp/bin"@ + "/"@ + name + ".dll"@,
        _ => ".bld_cpp/bin"@ + "/"@ + name + ".so"@,
    }
}

/// The paths of the binaries of the targets `targets` of a package.
pub open spec fn package_bins_of(platform: Platform, targets: Seq<TargetSpec>) -> Seq<Seq<char>> {
    Seq::new(targets.len(), |i: int| package_bin_of(platform, targets[i].name))
}

/// The paths of the binaries of the targets of the packages, package by
/// package.
pub open spec fn all_package_bins(platform: Platform, packages: Seq<PackageSpec>) -> Seq<Seq<char>>
    decreases packages.len(),
{
    if packages.len() == 0 {
        Seq::empty()
    } else {
        package_bins_of(platform, packages[0].target_configs) + all_package_bins(
            platform,
            packages.drop_first(),
        )
    }
}

/// The files that cleaning removes: for each target its hash file and its
/// binary.
pub fn clean(targets: &Vec<TargetConfig>, platform: Platform) -> (files: Vec<Cleanup>)
    ensures
        files@.len() == targets@.len(),
        forall|i: int|
            0 <= i < files@.len() ==> (#[trigger] files@[i]).hash_path@ == hash_path_of(
                platform,
                targets@[i].name@,
            ) && files@[i].bin_path@ == bin_path_of(platform, targets@[i].name@, targets@[i].typ@),
{
    let mut files: Vec<Cleanup> = Vec::new();
    let mut i: usize = 0;
    while i < targets.len()
        invariant
            i <= targets.len(),
            files@.len() == i,
            forall|j: int|
                0 <= j < i ==> (#[trigger] files@[j]).hash_path@ == hash_path_of(
                    platform,
                    targets@[j].name@,
                ) && files@[j].bin_path@ == bin_path_of(
                    platform,
                    targets@[j].name@,
                    targets@[j].typ@,
                ),
        decreases targets.len() - i,
    {
        let target = &targets[i];
        files.push(
            Cleanup {
                hash_path: hash_file_path(platform, target.name.as_str()),
                bin_path: bin_path(platform, target.name.as_str(), target.typ.as_str()),
            },
        );
        i += 1;
    }
    files
}

/// The binaries that cleaning the packages removes: one for each target of
/// each package.
pub fn clean_packages(packages: &Vec<Package>, platform: Platform) -> (bins: Vec<String>)
    ensures
        texts(bins@) == all_package_bins(platform, package_views(packages@)),
{
    let ghost all = package_views(packages@);
    let mut bins: Vec<String> = Vec::new();
    let mut p: usize = 0;
    assert(all.skip(0) =~= all);
    while p < packages.len()
        invariant
            p <= packages.len(),
            all == package_views(packages@),
            texts(bins@) + all_package_bins(platform, all.skip(p as int)) == all_package_bins(
                platform,
                all,
            ),
        decreases packages.len() - p,
    {
        let ghost before = texts(bins@);
        let targets = &packages[p].target_configs;
        let ghost list = package_bins_of(platform, specs(targets@));
        let mut t: usize = 0;
        while t < targets.len()
            invariant
                t <= targets.len(),
                list == package_bins_of(platform, specs(targets@)),
                texts(bins@) == before + list.take(t as int),
            decreases targets.len() - t,
        {
            let ghost so_far = texts(bins@);
            let mut bin = String::from_str(".bld_cpp/bin");
            bin.append("/");
            bin.append(targets[t].name.as_str());
            match platform {
                Platform::Windows => {
                    bin.append(".dll");
                },
                _ => {
                    bin.append(".so");
                },
            }
            bins.push(bin);
            proof {
                assert(texts(bins@) =~= so_far.push(list[t as int]));
                assert(list.take(t + 1) =~= list.take(t as int).push(list[t as int]));
                assert(texts(bins@) =~= before + list.take(t + 1));
            }
            t += 1;
        }
        proof {
            assert(list.take(t as int) =~= list);
            let tail = all.skip(p as int);
            assert(tail[0] == packages@[p as int]@);
            assert(tail.drop_first() =~= all.skip(p + 1));
            assert(texts(bins@) + all_package_bins(platform, all.skip(p + 1)) =~= before + (list
                + all_package_bins(platform, tail.drop_first())));
        }
        p += 1;
    }
    assert(texts(bins@) + Seq::<Seq<char>>::empty() =~= texts(bins@));
    bins
}

/// The binaries that cleaning the packages removes.
pub fn clean_packages_wrapper(packages: &Vec<Package>, platform: Platform) -> (bins: Vec<String>)
    ensures
        texts(bins@) == all_package_bins(platform, package_views(packages@)),
{
    clean_packages(packages, platform)
}

/// The commands that bring the packages up to date, one for each package.
pub fn update_packages(packages: &Vec<Package>) -> (commands: Vec<String>)
    ensures
        commands@.len() == packages@.len(),
        forall|i: int|
            0 <= i < commands@.len() ==> (#[trigger] commands@[i])@ == update_command_of(
                packages@[i].name@,
                packages@[i].branch@,
            ),
{
    let mut commands: Vec<String> = Vec::new();
    let mut i: usize = 0;
    while i < packages.len()
        invariant
            i <= packages.len(),
            commands@.len() == i,
            forall|j: int|
                0 <= j < i ==> (#[trigger] commands@[j])@ == update_command_of(
                    packages@[j].name@,
                    packages@[j].branch@,
                ),
        decreases packages.len() - i,
    {
        commands.push(packages[i].update());
        i += 1;
    }
    commands
}

/// The commands that put the packages back to the state of their branches,
/// one for each package.
pub fn restore_packages(packages: &Vec<Package>) -> (commands: Vec<String>)
    ensures
        commands@.len() == packages@.len(),
        forall|i: int|
            0 <= i < commands@.len() ==> (#[trigger] commands@[i])@ == restore_command_of(
                packages@[i].name@,
                packages@[i].branch@,
            ),
{
    let mut commands: Vec<String> = Vec::new();
    let mut i: usize = 0;
    while i < packages.len()
        invariant
            i <= packages.len(),
            commands@.len() == i,
            forall|j: int|
                0 <= j < i ==> (#[trigger] commands@[j])@ == restore_command_of(
                    packages@[j].name@,
                    packages@[j].branch@,
                ),
        decreases packages.len() - i,
    {
        commands.push(packages[i].restore());
        i += 1;
    }
    commands
}

} // verus!

//! The decisions of a build: whether it may run, and the order of its stages.
use vstd::prelude::*;

use crate::error::Error;
use crate::segment::{extension_of, has_extension};

verus! {

/// The command line of the generator.
#[derive(Debug)]
pub enum Command {
    /// Compile the definitions under `in_dir` into nested modules under `out_dir`.
    Build {
        in_dir: String,
        out_dir: String,
        build_client: bool,
        build_server: bool,
        force: bool,
    },
}

/// One stage of a build, carried out by the caller in order.
#[derive(Debug)]
pub enum BuildAction {
    /// Remove `out_dir` if it exists, then create it empty.
    PrepareOutDir { out_dir: String },
    /// Run the external compiler on the definitions under `in_dir`, writing
    /// one flat file per namespace to `out_dir`.
    Compile { in_dir: String, out_dir: String, build_server: bool, build_client: bool },
    /// Relocate the flat files of `out_dir` into nested modules.
    Refactor { out_dir: String },
}

/// Decides a build from `in_dir` to `out_dir`, given whether `out_dir`
/// already exists. An existing output directory is refused unless `force`
/// is set; otherwise the stages are: prepare the output directory, compile,
/// relocate.
pub fn build(
    in_dir: &str,
    out_dir: &str,
    build_server: bool,
    build_client: bool,
    force: bool,
    out_dir_exists: bool,
) -> (r: Result<Vec<BuildAction>, Error>)
    ensures
        r is Err == (!force && out_dir_exists),
        match r {
            Err(Error::DestinationExists { path }) => path@ == out_dir@,
            Err(_) => false,
            Ok(actions) => actions@.len() == 3 && (match actions@[0] {
                BuildAction::PrepareOutDir { out_dir: o } => o@ == out_dir@,
                _ => false,
            }) && (match actions@[1] {
                BuildAction::Compile { in_dir: i, out_dir: o, build_server: s, build_client: c } =>
                    i@ == in_dir@ && o@ == out_dir@ && s == build_server && c == build_client,
                _ => false,
            }) && (match actions@[2] {
                BuildAction::Refactor { out_dir: o } => o@ == out_dir@,
                _ => false,
            }),
        },
{
    if !force && out_dir_exists {
        return Err(Error::DestinationExists { path: out_dir.to_owned() });
    }
    let mut actions: Vec<BuildAction> = Vec::new();
    actions.push(BuildAction::PrepareOutDir { out_dir: out_dir.to_owned() });
    actions.push(
        BuildAction::Compile {
            in_dir: in_dir.to_owned(),
            out_dir: out_dir.to_owned(),
            build_server,
            build_client,
        },
    );
    actions.push(BuildAction::Refactor { out_dir: out_dir.to_owned() });
    Ok(actions)
}

/// Whether the file name `name` is an interface definition (`.proto`) file.
pub fn is_proto_file(name: &str) -> (r: bool)
    ensures
        r == (extension_of(name@) == Some("proto"@)),
{
    has_extension(name, "proto")
}

} // verus!

use crate::descriptor::decoded_packages;
use crate::error::ErrorKind;
use crate::error::TranspileError;
use crate::generator::all_decoded;
use crate::generator::fragment_views;
use crate::generator::generate_cargo_workspace;
use crate::generator::generate_librs;
use crate::generator::librs_text;
use crate::generator::manifest_text;
use crate::generator::Fragment;
use vstd::prelude::*;

verus! {

/// The options of a run.
#[derive(Debug)]
pub struct Opt {
    /// The name of the generated library.
    pub name: String,
    /// The language edition.
    pub edition: String,
    /// The schema files to compile.
    pub direct_sources: Vec<String>,
    /// Where imported schema files are looked up.
    pub transitive_proto_path: Vec<String>,
    /// The path of the direct descriptor set.
    pub direct_descriptor_set: String,
    /// The paths of the transitive descriptor sets, in order.
    pub transitive_descriptor_sets: Vec<String>,
    /// Where the generated library goes.
    pub output_librs: String,
    /// Where the build manifest goes.
    pub output_cargo_toml: String,
}

/// What was read for a run: the bytes of the direct descriptor set, those of
/// the transitive descriptor sets in the order of the options, and the
/// generated fragments found in the output directory.
#[derive(Debug)]
pub struct Inputs {
    pub direct_descriptor_set: Vec<u8>,
    pub transitive_descriptor_sets: Vec<Vec<u8>>,
    pub fragments: Vec<Fragment>,
}

/// What a run produces: the text of the library and of the build manifest.
#[derive(Debug)]
pub struct Outputs {
    pub librs: String,
    pub cargo_toml: String,
}

/// Produces the library and the build manifest. Fails as the library's
/// generation does; the manifest depends on the options alone.
pub fn transpile(opt: &Opt, inputs: &Inputs) -> (r: Result<Outputs, TranspileError>)
    ensures
        match (
            decoded_packages(inputs.direct_descriptor_set@),
            all_decoded(inputs.transitive_descriptor_sets@),
        ) {
            (Some(direct), Some(transitive)) => match librs_text(
                transitive,
                direct,
                fragment_views(inputs.fragments@),
            ) {
                Ok(text) => r is Ok && r->Ok_0.librs@ == text && r->Ok_0.cargo_toml@
                    == manifest_text(opt.name@, opt.edition@),
                Err(e) => r is Err && r->Err_0@ == e,
            },
            _ => r is Err && r->Err_0.kind == ErrorKind::Decode,
        },
{
    let librs: String = match generate_librs(
        &inputs.direct_descriptor_set,
        &inputs.transitive_descriptor_sets,
        &inputs.fragments,
    ) {
        Ok(text) => text,
        Err(e) => { return Err(e); },
    };
    let cargo_toml: String = generate_cargo_workspace(opt);
    Ok(Outputs { librs, cargo_toml })
}

} // verus!

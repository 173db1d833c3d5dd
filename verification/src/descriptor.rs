use crate::error::ErrorKind;
use crate::error::TranspileError;
use prost::Message;
use vstd::prelude::*;

verus! {

/// prost's error for bytes that do not decode.
#[verifier::external_type_specification]
#[verifier::external_body]
pub struct ExDecodeError(prost::DecodeError);

/// The package of each file descriptor, in stored order, that the bytes hold
/// when read as a file descriptor set in protobuf wire format; `None` where
/// the bytes are no valid encoding. A file descriptor without a package is
/// `None` within the sequence.
pub uninterp spec fn decoded_packages(bytes: Seq<u8>) -> Option<Seq<Option<Seq<char>>>>;

/// The views of a list of optional package names.
pub open spec fn package_views(files: Seq<Option<String>>) -> Seq<Option<Seq<char>>> {
    Seq::new(
        files.len(),
        |i: int|
            match files[i] {
                Some(name) => Some(name@),
                None => None,
            },
    )
}

/// A decoded descriptor set, as far as the assembler reads it: the package
/// that each of its file descriptors declares, in stored order.
#[derive(Debug)]
pub struct DescriptorSet {
    pub packages: Vec<Option<String>>,
}

impl View for DescriptorSet {
    type V = Seq<Option<Seq<char>>>;

    open spec fn view(&self) -> Seq<Option<Seq<char>>> {
        package_views(self.packages@)
    }
}

/// Calls `prost::Message::decode` on `prost_types::FileDescriptorSet` and
/// keeps the `package` field of each entry of `file`. Trusted: that the
/// outcome is a function of the bytes alone, named `decoded_packages`.
#[verifier::external_body]
fn decode_packages(buffer: &Vec<u8>) -> (r: Result<Vec<Option<String>>, prost::DecodeError>)
    ensures
        match r {
            Ok(files) => decoded_packages(buffer@) == Some(package_views(files@)),
            Err(_) => decoded_packages(buffer@) is None,
        },
{
    let set = prost_types::FileDescriptorSet::decode(bytes::Bytes::copy_from_slice(buffer))?;
    Ok(set.file.into_iter().map(|file| file.package).collect())
}

/// Calls `to_string` on a `prost::DecodeError`. Nothing is claimed of the
/// text.
#[verifier::external_body]
fn decode_error_text(error: &prost::DecodeError) -> (r: String) {
    error.to_string()
}

/// Decodes the bytes of a descriptor set. Fails with `Decode`, carrying the
/// decoder's message, exactly when the bytes are no valid encoding.
pub fn parse_descriptor_set(buffer: &Vec<u8>) -> (r: Result<DescriptorSet, TranspileError>)
    ensures
        match r {
            Ok(set) => decoded_packages(buffer@) == Some(set@),
            Err(e) => decoded_packages(buffer@) is None && e.kind == ErrorKind::Decode,
        },
{
    match decode_packages(buffer) {
        Ok(packages) => Ok(DescriptorSet { packages }),
        Err(error) => Err(
            TranspileError { kind: ErrorKind::Decode, detail: decode_error_text(&error) },
        ),
    }
}

} // verus!

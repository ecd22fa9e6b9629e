//! What the `dkregistry` crate knows of images.
use vstd::prelude::*;

verus! {

/// Why an image reference could not be parsed.
#[verifier::external_type_specification]
#[verifier::external_body]
pub struct ExReferenceParseError(dkregistry::reference::ReferenceParseError);

/// Why a registry could not be asked, or gave no usable answer.
#[verifier::external_type_specification]
#[verifier::external_body]
pub struct ExClientError(dkregistry::errors::Error);

/// Why a layer could not be unpacked.
#[verifier::external_type_specification]
#[verifier::external_body]
pub struct ExRenderError(dkregistry::render::RenderError);

/// What a registry says of an image.
#[verifier::external_type_specification]
#[verifier::external_body]
pub struct ExManifest(dkregistry::v2::manifest::Manifest);

/// The parts of an image reference.
pub struct ImageRef {
    /// Where the image is kept.
    pub registry: String,
    /// What it is called there.
    pub repository: String,
    /// Which version of it is meant.
    pub version: String,
}

/// What an image reference amounts to.
#[verifier::ext_equal]
pub ghost struct RefView {
    pub registry: Seq<char>,
    pub repository: Seq<char>,
    pub version: Seq<char>,
}

impl View for ImageRef {
    type V = RefView;

    open spec fn view(&self) -> RefView {
        RefView {
            registry: self.registry@,
            repository: self.repository@,
            version: self.version@,
        }
    }
}

/// What `dkregistry::reference::Reference::from_str` makes of a text: an error if
/// it is no image reference.
pub uninterp spec fn parsed_reference(image: Seq<char>) -> Result<
    RefView,
    dkregistry::reference::ReferenceParseError,
>;

/// Calls `dkregistry::reference::Reference::from_str`, and `registry`,
/// `repository` and `version` on its result. The outcome depends on the text
/// alone; what it is for which text is not stated.
#[verifier::external_body]
pub(crate) fn parse_reference(image: &str) -> (parsed: Result<
    ImageRef,
    dkregistry::reference::ReferenceParseError,
>)
    ensures
        parsed is Ok == parsed_reference(image@) is Ok,
        parsed matches Ok(reference) ==> parsed_reference(image@)->Ok_0 == reference@,
        parsed matches Err(err) ==> parsed_reference(image@)->Err_0 == err,
{
    let reference = image.parse::<dkregistry::reference::Reference>()?;
    Ok(ImageRef {
        registry: reference.registry(),
        repository: reference.repository(),
        version: reference.version(),
    })
}

/// The digests of an image's layers for an architecture, the base layer first:
/// an error if the manifest does not list any for it.
pub uninterp spec fn manifest_layers(
    manifest: dkregistry::v2::manifest::Manifest,
    architecture: Seq<char>,
) -> Result<Seq<Seq<char>>, dkregistry::errors::Error>;

/// The texts in a list.
pub open spec fn texts(list: Seq<String>) -> Seq<Seq<char>> {
    list.map_values(|s: String| s@)
}

/// Calls `dkregistry::v2::manifest::Manifest::layers_digests` for an
/// architecture. The outcome depends on the manifest and the architecture
/// alone; what it is for which manifest is not stated.
#[verifier::external_body]
pub(crate) fn layers_digests(
    manifest: &dkregistry::v2::manifest::Manifest,
    architecture: &str,
) -> (digests: Result<Vec<String>, dkregistry::errors::Error>)
    ensures
        digests is Ok == manifest_layers(*manifest, architecture@) is Ok,
        digests matches Ok(list) ==> manifest_layers(*manifest, architecture@)->Ok_0 == texts(
            list@,
        ),
        digests matches Err(err) ==> manifest_layers(*manifest, architecture@)->Err_0 == err,
{
    manifest.layers_digests(Some(architecture))
}

/// Lists of texts, and the parts of references, are taken as they are.
pub proof fn law_texts_are_complete(list: Seq<String>, reference: ImageRef, i: int)
    ensures
        texts(list).len() == list.len(),
        0 <= i < list.len() ==> texts(list)[i] == list[i]@,
        reference@.registry == reference.registry@,
        reference@.repository == reference.repository@,
        reference@.version == reference.version@,
{
}

} // verus!

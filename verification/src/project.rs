//! The checks made when a project file is opened: its manifest header, the
//! pixel budget of its images, and the document it describes.
use std::collections::HashSet;
use vstd::prelude::*;

use crate::assets::{load_check_from, Assets};
use crate::document::{
    error_text, find_layer, frame_check, ids, lemma_position, set_elements, side_ok, size_ok, size_text, structure_check,
    validate_size, Document, DocumentError, Layer, SizeError, MAX_LAYERS, MAX_PIXELS,
};

verus! {

/// Most entries a project archive may hold.
pub const MAX_ASSETS: usize = 20_001;

/// The only project format version that is read.
pub const PROJECT_VERSION: u32 = 1;

/// Why a project file was refused.
#[derive(Clone, Copy, Debug, PartialEq, Eq)]
pub enum ProjectError {
    /// The archive holds more than `MAX_ASSETS` entries.
    TooManyAssets,
    /// The manifest names another format or version.
    UnsupportedVersion,
    /// The document holds more than `MAX_LAYERS` layers.
    TooManyLayers,
    /// The canvas, or one of the images, has a refused size.
    Size(SizeError),
    /// The images together exceed `MAX_PIXELS`.
    PixelBudget,
    /// The manifest lists pixels for a layer the document does not hold.
    UnreferencedPixels,
    /// The document's structure is refused.
    Document(DocumentError),
}

/// The message shown for a refused project.
pub open spec fn project_text(e: ProjectError) -> Seq<char> {
    match e {
        ProjectError::TooManyAssets => "Too many project assets"@,
        ProjectError::UnsupportedVersion => "Unsupported xuan project version"@,
        ProjectError::TooManyLayers => "Too many layers"@,
        ProjectError::Size(e) => size_text(e),
        ProjectError::PixelBudget => "Project exceeds 100 megapixels of source images"@,
        ProjectError::UnreferencedPixels => "Unreferenced pixel layer metadata"@,
        ProjectError::Document(e) => error_text(e),
    }
}

impl ProjectError {
    /// The message shown for the error.
    pub fn message(&self) -> (text: &'static str)
        ensures
            text@ == project_text(*self),
    {
        match self {
            ProjectError::TooManyAssets => "Too many project assets",
            ProjectError::UnsupportedVersion => "Unsupported xuan project version",
            ProjectError::TooManyLayers => "Too many layers",
            ProjectError::Size(e) => e.message(),
            ProjectError::PixelBudget => "Project exceeds 100 megapixels of source images",
            ProjectError::UnreferencedPixels => "Unreferenced pixel layer metadata",
            ProjectError::Document(e) => e.message(),
        }
    }
}

/// The size error for a refused canvas of `width` x `height`.
pub open spec fn size_error(width: u32, height: u32) -> SizeError {
    if side_ok(width) && side_ok(height) {
        SizeError::TooManyPixels
    } else {
        SizeError::Dimensions
    }
}

/// The format name a manifest must carry.
pub open spec fn project_format() -> Seq<char> {
    "org.xuan.project"@
}

/// The verdict on a manifest header, before any image is read: the number of
/// archive entries, the format and version, the number of layers, the canvas.
pub open spec fn header_verdict(
    assets: int,
    format: Seq<char>,
    version: u32,
    layer_count: int,
    width: u32,
    height: u32,
) -> Result<(), ProjectError> {
    if assets > MAX_ASSETS {
        Err(ProjectError::TooManyAssets)
    } else if !(format == project_format() && version == PROJECT_VERSION) {
        Err(ProjectError::UnsupportedVersion)
    } else if layer_count > MAX_LAYERS {
        Err(ProjectError::TooManyLayers)
    } else if !size_ok(width, height) {
        Err(ProjectError::Size(size_error(width, height)))
    } else {
        Ok(())
    }
}

/// Check the header of a manifest of `format` and `version` describing
/// `document`, in an archive of `assets` entries.
pub fn check_header<P>(assets: usize, format: &String, version: u32, document: &Document<P>) -> (result: Result<
    (),
    ProjectError,
>)
    ensures
        result == header_verdict(
            assets as int,
            format@,
            version,
            document.layers@.len() as int,
            document.width,
            document.height,
        ),
{
    if assets > MAX_ASSETS {
        return Err(ProjectError::TooManyAssets);
    }
    let expected = String::from_str("org.xuan.project");
    proof {
        reveal_strlit("org.xuan.project");
    }
    if !(*format == expected && version == PROJECT_VERSION) {
        return Err(ProjectError::UnsupportedVersion);
    }
    if document.layers.len() > MAX_LAYERS {
        return Err(ProjectError::TooManyLayers);
    }
    match validate_size(document.width, document.height) {
        Err(e) => Err(ProjectError::Size(e)),
        Ok(()) => Ok(()),
    }
}

/// The pixels read so far after one more image of `width` x `height`, or
/// why the image is refused.
pub open spec fn charged(used: u64, width: u32, height: u32) -> Result<u64, ProjectError> {
    if !size_ok(width, height) {
        Err(ProjectError::Size(size_error(width, height)))
    } else if used + width * height > MAX_PIXELS {
        Err(ProjectError::PixelBudget)
    } else {
        Ok((used + width * height) as u64)
    }
}

/// Count an image of `width` x `height` against the pixels `used` by the
/// images read before it.
pub fn charge_pixels(used: u64, width: u32, height: u32) -> (result: Result<u64, ProjectError>)
    ensures
        result == charged(used, width, height),
{
    match validate_size(width, height) {
        Err(e) => return Err(ProjectError::Size(e)),
        Ok(()) => {},
    }
    let area = (width as u64) * (height as u64);
    if used > MAX_PIXELS - area {
        return Err(ProjectError::PixelBudget);
    }
    Ok(used + area)
}

/// Every layer the manifest lists pixels for is in the document.
pub open spec fn referenced<P>(layers: Seq<Layer<P>>, pixel_layers: Set<u128>) -> bool {
    forall|id: u128| pixel_layers.contains(id) ==> ids(layers).contains(id)
}

/// The selection a freshly opened document starts with: the active layer alone.
pub open spec fn selection_of(active: Option<u128>) -> Set<u128> {
    match active {
        Some(a) => set![a],
        None => Set::empty(),
    }
}

/// Finish opening `document`, once its images are in place: every layer the
/// manifest lists pixels for must be in it, its selection becomes the active
/// layer alone, and its structure and its pixel assets (as `assets` reads
/// them from each layer's content) must pass the checks.
pub fn finish_load<P, F: Fn(&P) -> Assets>(document: Document<P>, pixel_layers: &HashSet<u128>, assets: F) -> (result:
    Result<Document<P>, ProjectError>)
    requires
        forall|c: &P| #[trigger] assets.requires((c,)),
    ensures
        !referenced(document.layers@, pixel_layers@) ==> result == Err::<Document<P>, ProjectError>(
            ProjectError::UnreferencedPixels,
        ),
        referenced(document.layers@, pixel_layers@) ==> match frame_check(document) {
            Err(e) => result == Err::<Document<P>, ProjectError>(ProjectError::Document(e)),
            Ok(()) => exists|infos: Seq<Assets>|
                #![trigger infos.len()]
                infos.len() == document.layers@.len() && (forall|k: int|
                    0 <= k < infos.len() ==> assets.ensures((&document.layers@[k].content,), #[trigger] infos[k]))
                    && match load_check_from(document.layers@, infos, 0, 0, 0) {
                    Err(e) => result == Err::<Document<P>, ProjectError>(ProjectError::Document(e)),
                    Ok(()) => result is Ok,
                },
        },
        result matches Ok(d) ==> {
            &&& structure_check(document) is Ok
            &&& d.id == document.id
            &&& d.width == document.width
            &&& d.height == document.height
            &&& d.layers == document.layers
            &&& d.active == document.active
            &&& d.selected@ == selection_of(document.active)
        },
{
    let listed = set_elements(pixel_layers);
    let mut k: usize = 0;
    while k < listed.len()
        invariant
            k <= listed@.len(),
            listed@.to_set() == pixel_layers@,
            forall|j: int| 0 <= j < k ==> ids(document.layers@).contains(#[trigger] listed@[j]),
        decreases listed@.len() - k,
    {
        proof {
            lemma_position(document.layers@, listed@[k as int]);
        }
        match find_layer(&document.layers, listed[k]) {
            None => {
                proof {
                    assert(listed@.to_set().contains(listed@[k as int]));
                    if ids(document.layers@).contains(listed@[k as int]) {
                        let i = choose|i: int| 0 <= i < document.layers@.len() && ids(document.layers@)[i] == listed@[k as int];
                        assert(document.layers@[i].id == listed@[k as int]);
                    }
                }
                return Err(ProjectError::UnreferencedPixels);
            },
            Some(i) => {
                proof {
                    assert(ids(document.layers@)[i as int] == listed@[k as int]);
                }
            },
        }
        k = k + 1;
    }
    assert(referenced(document.layers@, pixel_layers@)) by {
        assert forall|id: u128| pixel_layers@.contains(id) implies ids(document.layers@).contains(id) by {
            assert(listed@.to_set().contains(id));
            let j = choose|j: int| 0 <= j < listed@.len() && listed@[j] == id;
            assert(ids(document.layers@).contains(listed@[j]));
        }
    }
    let mut document = document;
    let mut selected: HashSet<u128> = HashSet::new();
    match document.active {
        Some(a) => {
            selected.insert(a);
        },
        None => {},
    }
    document.selected = selected;
    match document.validate_with(assets) {
        Err(e) => Err(ProjectError::Document(e)),
        Ok(()) => Ok(document),
    }
}

} // verus!

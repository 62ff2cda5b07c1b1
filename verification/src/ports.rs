//! Capability declarations for the collaborators the pipeline consumes.
//! The implementations do file and network I/O and live at the
//! application edge; the library fixes only the interfaces and the
//! adapter handles.

use vstd::prelude::*;

verus! {

/// A capability that turns an image file into a transport-ready,
/// base64-encoded payload, resizing it on the way.
pub trait ImageEncoder {
    /// Encodes the image at the path, or reports an error message.
    fn resize_and_base64encode_image(&self, image_path: &String) -> Result<String, String>;
}

/// Handle for the image-crate-backed encoder; the encoding work itself
/// happens at the application edge.
#[derive(Clone, Copy, Debug, Default)]
pub struct ImageCrateEncoder;

impl ImageCrateEncoder {
    pub fn new() -> (r: ImageCrateEncoder)
        ensures
            r == (ImageCrateEncoder {  }),
    {
        ImageCrateEncoder {  }
    }
}

/// Handle for the XMP-toolkit-backed metadata store; the file I/O happens
/// at the application edge.
#[derive(Clone, Copy, Debug, Default)]
pub struct XMPToolkitMetadata;

impl XMPToolkitMetadata {
    pub fn new() -> (r: XMPToolkitMetadata)
        ensures
            r == (XMPToolkitMetadata {  }),
    {
        XMPToolkitMetadata {  }
    }
}

} // verus!

//! Opening a document: first as it is, then, where that fails, as another
//! program writes it anew.

use lopdf::Document;
use vstd::prelude::*;

verus! {

/// What is known once a file has been read, or could not be.
pub enum Opened {
    /// The document.
    Document(Document),
    /// The file could not be read as it is, and is to be normalised.
    Normalise(lopdf::Error),
    /// The file could not be read, and nothing is there to normalise it.
    NoNormaliser(lopdf::Error),
    /// The file could not be read, and its path is not one that can be handed on.
    PathNotUtf8(lopdf::Error),
}

/// What is to be done with a file that was read, or could not be.
pub open spec fn opening(
    loaded: Result<Document, lopdf::Error>,
    has_normaliser: bool,
    path_is_utf8: bool,
) -> Opened {
    match loaded {
        Ok(doc) => Opened::Document(doc),
        Err(e) => if !has_normaliser {
            Opened::NoNormaliser(e)
        } else if !path_is_utf8 {
            Opened::PathNotUtf8(e)
        } else {
            Opened::Normalise(e)
        },
    }
}

/// What is to be done with a file that was read, or could not be: normalising takes a
/// normaliser and a path in UTF-8. A document that was read is taken as it is, and the
/// reason why one could not be read is kept.
pub fn load_pdf_robust(
    loaded: Result<Document, lopdf::Error>,
    has_normaliser: bool,
    path_is_utf8: bool,
) -> (r: Opened)
    ensures
        r == opening(loaded, has_normaliser, path_is_utf8),
        match loaded {
            Ok(doc) => r == Opened::Document(doc),
            Err(e) => r == if !has_normaliser {
                Opened::NoNormaliser(e)
            } else if !path_is_utf8 {
                Opened::PathNotUtf8(e)
            } else {
                Opened::Normalise(e)
            },
        },
{
    match loaded {
        Ok(doc) => Opened::Document(doc),
        Err(e) => if !has_normaliser {
            Opened::NoNormaliser(e)
        } else if !path_is_utf8 {
            Opened::PathNotUtf8(e)
        } else {
            Opened::Normalise(e)
        },
    }
}

} // verus!

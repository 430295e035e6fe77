//! Decisions of the media viewer that do not depend on its geometry.
use vstd::prelude::*;

verus! {

/// The title over the media viewer: the chat's title when the viewer knows the
/// chat, else the picture's file name, else `fallback` (the word for "Image").
pub fn viewer_title(chat_title: Option<String>, file_name: Option<String>, fallback: String) -> (r:
    String)
    ensures
        r@ == (match chat_title {
            Some(title) => title@,
            None => match file_name {
                Some(name) => name@,
                None => fallback@,
            },
        }),
{
    match chat_title {
        Some(title) => title,
        None => match file_name {
            Some(name) => name,
            None => fallback,
        },
    }
}

} // verus!

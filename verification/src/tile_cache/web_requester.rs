//! The address under which a tile provider serves a tile.

use crate::tile_cache::tile_name_conversion::{tile_partial_url, TileSpecification};
use vstd::prelude::*;

verus! {

/// The url of a tile: the intro url, the tile path of the slippy map convention, then the post
/// url (for instance an access token).
pub fn tile_url(intro_url: &str, specification: &TileSpecification, post_url: &str) -> (r: String)
    ensures
        r@ == intro_url@ + tile_partial_url(
            specification.spec_level(),
            specification.spec_x(),
            specification.spec_y(),
        ) + post_url@,
{
    let mut url = String::from_str(intro_url);
    let partial = specification.get_partial_url();
    url.append(partial.as_str());
    url.append(post_url);
    url
}

} // verus!

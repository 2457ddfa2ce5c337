//! Carrying a source graph's trailer metadata into a target graph under a
//! translation table.
use vstd::prelude::*;

use crate::graph::Graph;
use crate::model::clone_node;
use crate::model::node_eq;
use crate::remap::IdMap;

verus! {

/// Copies the metadata links of `source`'s trailer into `target`: the info
/// block and the protection descriptor references are carried over remapped
/// when the table covers them and left alone otherwise, and the
/// document-identity blob is copied verbatim. The object table, the root
/// and the size are untouched.
pub fn preserve_document_metadata(source: &Graph, target: &mut Graph, id_map: &IdMap)
    requires
        id_map.wf(),
        old(target).wf(),
    ensures
        final(target).wf(),
        final(target).objects == old(target).objects,
        final(target).max_id == old(target).max_id,
        final(target).entry_points == old(target).entry_points,
        final(target).version == old(target).version,
        final(target).trailer.root == old(target).trailer.root,
        final(target).trailer.size == old(target).trailer.size,
        final(target).trailer.info == (match source.trailer.info {
            Some(i) => if id_map@.dom().contains(i) {
                Some(id_map@[i])
            } else {
                old(target).trailer.info
            },
            None => old(target).trailer.info,
        }),
        final(target).trailer.encrypt == (match source.trailer.encrypt {
            Some(i) => if id_map@.dom().contains(i) {
                Some(id_map@[i])
            } else {
                old(target).trailer.encrypt
            },
            None => old(target).trailer.encrypt,
        }),
        match source.trailer.id_blob {
            Some(n) => final(target).trailer.id_blob matches Some(m) && node_eq(n, m),
            None => final(target).trailer.id_blob == old(target).trailer.id_blob,
        },
{
    if let Some(info_id) = source.trailer.info {
        if let Some(new_info) = id_map.get(info_id) {
            target.trailer.info = Some(new_info);
        }
    }
    if let Some(blob) = &source.trailer.id_blob {
        target.trailer.id_blob = Some(clone_node(blob));
    }
    if let Some(enc_id) = source.trailer.encrypt {
        if let Some(new_enc) = id_map.get(enc_id) {
            target.trailer.encrypt = Some(new_enc);
        }
    }
}

} // verus!

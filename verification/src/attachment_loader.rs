//! Loading the attachments of newly requested nodes from disk.
//!
//! The loader does no I/O itself. For every node that is new in the atlas it
//! names the files to load, one for each attachment that is configured to
//! come from disk. The caller hands each file to the asset server and reports
//! the handle that it got; the loader remembers which node and attachment the
//! handle stands for. When the asset server later reports a handle as loaded,
//! the loader looks it up and marks the attachment in the atlas. A handle
//! that it does not know, because its node was released in the meantime, is
//! stale: it is ignored.

use crate::node_atlas::{AtlasView, NodeAtlas};
use crate::node_id::{AttachmentIndex, NodeId};
use bevy::asset::HandleId;
use bevy::render::render_resource::TextureFormat;
use vstd::prelude::*;
use vstd::string::StringExecFns;

verus! {

/// The texel format of a texture, as the renderer defines it. The loader
/// only carries it from the configuration to the loaded image.
#[verifier::external_type_specification]
#[verifier::external_body]
pub struct ExTextureFormat(TextureFormat);

/// The identifier of an asset, as the asset server defines it. The loader
/// only uses it as a key.
#[verifier::external_type_specification]
#[verifier::external_body]
pub struct ExHandleId(HandleId);

/// Where an attachment comes from on disk, and the format of its texels.
pub struct AttachmentFromDisk {
    /// The directory that holds one file for each node.
    pub path: String,
    /// The format that a loaded image of the attachment is given.
    pub format: TextureFormat,
}

/// The attachments that come from disk, by their index in the atlas. It is
/// kept in the hash map of `bevy::utils`.
#[verifier::external_body]
pub struct AttachmentTable {
    inner: bevy::utils::HashMap<AttachmentIndex, AttachmentFromDisk>,
}

/// The loads in flight: for each handle, the node and the attachment that it
/// was issued for. It is kept in the hash map of `bevy::utils`.
#[verifier::external_body]
pub struct HandleTable {
    inner: bevy::utils::HashMap<HandleId, (NodeId, AttachmentIndex)>,
}

/// What an [`AttachmentTable`] holds.
pub uninterp spec fn attachment_entries(table: AttachmentTable) -> Map<
    AttachmentIndex,
    AttachmentFromDisk,
>;

/// What a [`HandleTable`] holds.
pub uninterp spec fn handle_entries(table: HandleTable) -> Map<HandleId, (NodeId, AttachmentIndex)>;

/// No attachment at all.
pub open spec fn no_attachments() -> Map<AttachmentIndex, AttachmentFromDisk> {
    Map::empty()
}

/// No load at all.
pub open spec fn no_loads() -> Map<HandleId, (NodeId, AttachmentIndex)> {
    Map::empty()
}

/// `HashMap::default` of `bevy::utils`: a map that holds nothing.
#[verifier::external_body]
fn attachment_table_new() -> (table: AttachmentTable)
    ensures
        attachment_entries(table) == no_attachments(),
{
    AttachmentTable { inner: bevy::utils::HashMap::default() }
}

/// `HashMap::insert` of `bevy::utils`: afterwards the map holds `attachment`
/// at `index` and is otherwise as before; the value that `index` had before,
/// if any, is returned.
#[verifier::external_body]
fn attachment_table_insert(
    table: &mut AttachmentTable,
    index: AttachmentIndex,
    attachment: AttachmentFromDisk,
) -> (previous: Option<AttachmentFromDisk>)
    ensures
        attachment_entries(*final(table)) == attachment_entries(*old(table)).insert(
            index,
            attachment,
        ),
        previous == if attachment_entries(*old(table)).contains_key(index) {
            Some(attachment_entries(*old(table))[index])
        } else {
            None
        },
{
    table.inner.insert(index, attachment)
}

/// `HashMap::get` of `bevy::utils`: the value at `index`, if the map holds
/// one.
#[verifier::external_body]
fn attachment_table_get(table: &AttachmentTable, index: AttachmentIndex) -> (found: Option<
    &AttachmentFromDisk,
>)
    ensures
        found is Some <==> attachment_entries(*table).contains_key(index),
        found is Some ==> *found->Some_0 == attachment_entries(*table)[index],
{
    table.inner.get(&index)
}

/// `HashMap::keys` of `bevy::utils`, collected: every key of the map once,
/// in no particular order.
#[verifier::external_body]
fn attachment_table_indices(table: &AttachmentTable) -> (indices: Vec<AttachmentIndex>)
    ensures
        indices@.no_duplicates(),
        forall|index: AttachmentIndex|
            indices@.contains(index) <==> attachment_entries(*table).contains_key(index),
{
    table.inner.keys().copied().collect()
}

/// `HashMap::default` of `bevy::utils`: a map that holds nothing.
#[verifier::external_body]
fn handle_table_new() -> (table: HandleTable)
    ensures
        handle_entries(table) == no_loads(),
{
    HandleTable { inner: bevy::utils::HashMap::default() }
}

/// `HashMap::insert` of `bevy::utils`: afterwards the map holds
/// `(node, index)` at `handle` and is otherwise as before.
#[verifier::external_body]
fn handle_table_insert(
    table: &mut HandleTable,
    handle: HandleId,
    node: NodeId,
    index: AttachmentIndex,
)
    ensures
        handle_entries(*final(table)) == handle_entries(*old(table)).insert(handle, (node, index)),
{
    table.inner.insert(handle, (node, index));
}

/// `HashMap::remove` of `bevy::utils`: afterwards the map holds nothing at
/// `handle` and is otherwise as before; the value that `handle` had, if any,
/// is returned.
#[verifier::external_body]
fn handle_table_remove(table: &mut HandleTable, handle: HandleId) -> (removed: Option<
    (NodeId, AttachmentIndex),
>)
    ensures
        handle_entries(*final(table)) == handle_entries(*old(table)).remove(handle),
        removed == if handle_entries(*old(table)).contains_key(handle) {
            Some(handle_entries(*old(table))[handle])
        } else {
            None
        },
{
    table.inner.remove(&handle)
}

/// `HashMap::contains_key` of `bevy::utils`: whether the map holds a value
/// at `handle`.
#[verifier::external_body]
fn handle_table_contains(table: &HandleTable, handle: HandleId) -> (present: bool)
    ensures
        present == handle_entries(*table).contains_key(handle),
{
    table.inner.contains_key(&handle)
}

/// `HashMap::retain` of `bevy::utils`, keeping the loads of other nodes:
/// afterwards the map holds no load that was issued for `node` and is
/// otherwise as before.
#[verifier::external_body]
fn handle_table_forget(table: &mut HandleTable, node: NodeId)
    ensures
        handle_entries(*final(table)) == without_node(handle_entries(*old(table)), node),
{
    table.inner.retain(|_, entry| is_for_other_node(entry, node));
}

/// Whether the load `entry` was issued for a node other than `node`.
fn is_for_other_node(entry: &(NodeId, AttachmentIndex), node: NodeId) -> (other: bool)
    ensures
        other == (entry.0 != node),
{
    entry.0 != node
}

/// The loads of `pending` that were not issued for `node`.
pub open spec fn without_node(
    pending: Map<HandleId, (NodeId, AttachmentIndex)>,
    node: NodeId,
) -> Map<HandleId, (NodeId, AttachmentIndex)> {
    Map::new(
        |handle: HandleId| pending.contains_key(handle) && pending[handle].0 != node,
        |handle: HandleId| pending[handle],
    )
}

/// The loads of `pending` that were issued for none of `nodes`.
pub open spec fn without_nodes(
    pending: Map<HandleId, (NodeId, AttachmentIndex)>,
    nodes: Seq<NodeId>,
) -> Map<HandleId, (NodeId, AttachmentIndex)>
    decreases nodes.len(),
{
    if nodes.len() == 0 {
        pending
    } else {
        without_node(without_nodes(pending, nodes.drop_last()), nodes.last())
    }
}

/// The character of the decimal digit `d`.
pub open spec fn digit_char(d: int) -> char {
    if d == 0 {
        '0'
    } else if d == 1 {
        '1'
    } else if d == 2 {
        '2'
    } else if d == 3 {
        '3'
    } else if d == 4 {
        '4'
    } else if d == 5 {
        '5'
    } else if d == 6 {
        '6'
    } else if d == 7 {
        '7'
    } else if d == 8 {
        '8'
    } else {
        '9'
    }
}

/// The number `n` in decimal digits, without leading zeros.
pub open spec fn decimal(n: nat) -> Seq<char>
    decreases n,
{
    if n < 10 {
        seq![digit_char(n as int)]
    } else {
        decimal(n / 10).push(digit_char((n % 10) as int))
    }
}

/// The path of the file that holds the attachment in directory `dir` for
/// the node `node`: the directory, a slash, the identifier of the node in
/// decimal digits, and the extension `.png`.
pub open spec fn asset_path(dir: Seq<char>, node: NodeId) -> Seq<char> {
    dir + seq!['/'] + decimal(node as nat) + seq!['.', 'p', 'n', 'g']
}

/// The decimal digit `d` as a string.
fn digit_str(d: u32) -> (digit: &'static str)
    requires
        d < 10,
    ensures
        digit@ == seq![digit_char(d as int)],
{
    proof {
        reveal_strlit("0");
        reveal_strlit("1");
        reveal_strlit("2");
        reveal_strlit("3");
        reveal_strlit("4");
        reveal_strlit("5");
        reveal_strlit("6");
        reveal_strlit("7");
        reveal_strlit("8");
        reveal_strlit("9");
    }
    let digit = if d == 0 {
        "0"
    } else if d == 1 {
        "1"
    } else if d == 2 {
        "2"
    } else if d == 3 {
        "3"
    } else if d == 4 {
        "4"
    } else if d == 5 {
        "5"
    } else if d == 6 {
        "6"
    } else if d == 7 {
        "7"
    } else if d == 8 {
        "8"
    } else {
        "9"
    };
    assert(digit@ =~= seq![digit_char(d as int)]);
    digit
}

/// Appends the decimal digits of `n` to `text`.
fn push_decimal(text: &mut String, n: u32)
    ensures
        final(text)@ == old(text)@ + decimal(n as nat),
    decreases n,
{
    if n >= 10 {
        push_decimal(text, n / 10);
    }
    text.append(digit_str(n % 10));
    proof {
        if n >= 10 {
            assert(text@ =~= old(text)@ + decimal((n / 10) as nat).push(digit_char((n % 10) as int)));
        } else {
            assert(text@ =~= old(text)@ + seq![digit_char(n as int)]);
        }
    }
}

/// Builds the path of the file that holds the attachment in directory `dir`
/// for the node `node`.
pub fn node_asset_path(dir: &str, node: NodeId) -> (path: String)
    ensures
        path@ == asset_path(dir@, node),
{
    let mut path = String::from_str(dir);
    proof {
        reveal_strlit("/");
        reveal_strlit(".png");
    }
    path.append("/");
    push_decimal(&mut path, node);
    path.append(".png");
    proof {
        assert("/"@ =~= seq!['/']);
        assert(".png"@ =~= seq!['.', 'p', 'n', 'g']);
        assert(path@ =~= asset_path(dir@, node));
    }
    path
}

/// One file to load: an attachment of a node.
#[derive(Debug)]
pub struct LoadRequest {
    /// The node that the file belongs to.
    pub node: NodeId,
    /// The attachment that the file holds.
    pub attachment_index: AttachmentIndex,
    /// The path of the file.
    pub path: String,
}

/// A load that has finished and was still awaited.
pub struct FinishedLoad {
    /// The node that the load was issued for.
    pub node: NodeId,
    /// The attachment that the load was issued for.
    pub attachment_index: AttachmentIndex,
    /// The format to give the loaded image, where the attachment is still
    /// configured.
    pub format: Option<TextureFormat>,
    /// Whether this was the last attachment that the node was waiting for.
    pub completed: bool,
}

/// Whether `requests` name the files of `node`: one file for each
/// attachment of `attachments`, in any order, each at its path.
pub open spec fn is_load_plan(
    attachments: Map<AttachmentIndex, AttachmentFromDisk>,
    node: NodeId,
    requests: Seq<LoadRequest>,
) -> bool {
    &&& forall|i: int, j: int|
        0 <= i < requests.len() && 0 <= j < requests.len() && i != j
            ==> requests[i].attachment_index != requests[j].attachment_index
    &&& forall|index: AttachmentIndex|
        attachments.contains_key(index) <==> exists|i: int|
            0 <= i < requests.len() && (#[trigger] requests[i]).attachment_index == index
    &&& forall|i: int|
        0 <= i < requests.len() ==> {
            &&& (#[trigger] requests[i]).node == node
            &&& requests[i].path@ == asset_path(
                attachments[requests[i].attachment_index].path@,
                node,
            )
        }
}

/// Whether `requests` name the files of each of `nodes` in turn: the files
/// of the first node, then those of the second, and so on.
pub open spec fn is_load_plan_for_all(
    attachments: Map<AttachmentIndex, AttachmentFromDisk>,
    nodes: Seq<NodeId>,
    requests: Seq<LoadRequest>,
) -> bool
    decreases nodes.len(),
{
    if nodes.len() == 0 {
        requests.len() == 0
    } else {
        exists|cut: int|
            0 <= cut <= requests.len() && is_load_plan_for_all(
                attachments,
                nodes.drop_last(),
                #[trigger] requests.subrange(0, cut),
            ) && is_load_plan(
                attachments,
                nodes.last(),
                requests.subrange(cut, requests.len() as int),
            )
    }
}

/// The atlas after the loads of each of `nodes` were issued.
pub open spec fn start_all(v: AtlasView, nodes: Seq<NodeId>) -> AtlasView
    decreases nodes.len(),
{
    if nodes.len() == 0 {
        v
    } else {
        start_all(v, nodes.drop_last()).start_loading(nodes.last())
    }
}

/// This component is used to load attachments from disk memory into the
/// corresponding [`NodeAtlas`].
pub struct AttachmentFromDiskLoader {
    pub(crate) attachments: AttachmentTable,
    /// Maps the id of an asset to the corresponding node id.
    handle_mapping: HandleTable,
}

impl Default for AttachmentFromDiskLoader {
    /// A loader with no attachment configured and no load in flight.
    fn default() -> (loader: Self)
        ensures
            loader.attachments() == no_attachments(),
            loader.pending() == no_loads(),
    {
        AttachmentFromDiskLoader {
            attachments: attachment_table_new(),
            handle_mapping: handle_table_new(),
        }
    }
}

impl AttachmentFromDiskLoader {
    /// The attachments that come from disk, by their index in the atlas.
    pub closed spec fn attachments(&self) -> Map<AttachmentIndex, AttachmentFromDisk> {
        attachment_entries(self.attachments)
    }

    /// The loads in flight: for each handle, the node and the attachment
    /// that it was issued for.
    pub closed spec fn pending(&self) -> Map<HandleId, (NodeId, AttachmentIndex)> {
        handle_entries(self.handle_mapping)
    }

    /// Configures the attachment `attachment_index` to be loaded from the
    /// directory `path`, its images to be given the format `format`. An
    /// earlier configuration of the same attachment is replaced.
    pub fn add_attachment(
        &mut self,
        attachment_index: AttachmentIndex,
        path: String,
        format: TextureFormat,
    )
        ensures
            final(self).attachments() == old(self).attachments().insert(
                attachment_index,
                AttachmentFromDisk { path, format },
            ),
            final(self).pending() == old(self).pending(),
    {
        let _ = attachment_table_insert(
            &mut self.attachments,
            attachment_index,
            AttachmentFromDisk { path, format },
        );
    }

    /// Whether a load with the handle `handle` is in flight.
    pub fn is_pending(&self, handle: HandleId) -> (pending: bool)
        ensures
            pending == self.pending().contains_key(handle),
    {
        handle_table_contains(&self.handle_mapping, handle)
    }

    /// Names the files to load for `node`: one for each attachment that
    /// comes from disk. The order of the files is not determined.
    pub fn load_requests(&self, node: NodeId) -> (requests: Vec<LoadRequest>)
        ensures
            is_load_plan(self.attachments(), node, requests@),
    {
        let indices = attachment_table_indices(&self.attachments);
        let mut requests: Vec<LoadRequest> = Vec::new();
        let mut i: usize = 0;
        while i < indices.len()
            invariant
                i <= indices@.len(),
                indices@.no_duplicates(),
                forall|index: AttachmentIndex|
                    indices@.contains(index) <==> self.attachments().contains_key(index),
                requests@.len() == i,
                forall|k: int|
                    0 <= k < i ==> {
                        &&& (#[trigger] requests@[k]).attachment_index == indices@[k]
                        &&& requests@[k].node == node
                        &&& requests@[k].path@ == asset_path(
                            self.attachments()[indices@[k]].path@,
                            node,
                        )
                    },
            decreases indices@.len() - i,
        {
            let index = indices[i];
            proof {
                assert(indices@.contains(index));
            }
            match attachment_table_get(&self.attachments, index) {
                Some(attachment) => {
                    let path = node_asset_path(attachment.path.as_str(), node);
                    requests.push(LoadRequest { node, attachment_index: index, path });
                },
                None => {
                    // Not reached: every index that the table lists is one of its keys.
                    proof {
                        assert(false);
                    }
                },
            }
            i += 1;
        }
        proof {
            assert forall|index: AttachmentIndex|
                self.attachments().contains_key(index) <==> exists|k: int|
                    0 <= k < requests@.len() && (#[trigger] requests@[k]).attachment_index
                        == index by {
                if self.attachments().contains_key(index) {
                    assert(indices@.contains(index));
                    let k = choose|k: int| 0 <= k < indices@.len() && indices@[k] == index;
                    assert(requests@[k].attachment_index == index);
                }
                if exists|k: int|
                    0 <= k < requests@.len() && (#[trigger] requests@[k]).attachment_index
                        == index {
                    let k = choose|k: int|
                        0 <= k < requests@.len() && (#[trigger] requests@[k]).attachment_index
                            == index;
                    assert(indices@[k] == index);
                    assert(indices@.contains(index));
                }
            }
        }
        requests
    }

    /// Notes a load that was issued for attachment `attachment_index` of
    /// `node` and got the handle `handle`.
    ///
    /// Where the asset server had the data at hand (`already_loaded`), the
    /// attachment is marked as loaded at once and no load is remembered;
    /// otherwise the handle is remembered until the load finishes. Returns
    /// whether the node became fully loaded by this.
    pub fn load_issued(
        &mut self,
        atlas: &mut NodeAtlas,
        node: NodeId,
        attachment_index: AttachmentIndex,
        handle: HandleId,
        already_loaded: bool,
    ) -> (completed: bool)
        requires
            old(atlas).wf(),
        ensures
            final(atlas).wf(),
            final(self).attachments() == old(self).attachments(),
            already_loaded ==> final(self).pending() == old(self).pending() && final(atlas)@ == old(
                atlas,
            )@.mark_attachment_loaded(node, attachment_index),
            !already_loaded ==> final(self).pending() == old(self).pending().insert(
                handle,
                (node, attachment_index),
            ) && final(atlas)@ == old(atlas)@,
            completed == (!old(atlas)@.is_loaded(node) && final(atlas)@.is_loaded(node)),
    {
        if already_loaded {
            atlas.mark_attachment_loaded(node, attachment_index)
        } else {
            handle_table_insert(&mut self.handle_mapping, handle, node, attachment_index);
            false
        }
    }

    /// Takes the load with the handle `handle` off the loads in flight
    /// without touching the atlas, as after a failed load: the node stays as
    /// it is, short of this attachment. Returns the node and the attachment
    /// that the load was issued for, or `None` for a handle that is not
    /// awaited.
    pub fn load_failed(&mut self, handle: HandleId) -> (failed: Option<(NodeId, AttachmentIndex)>)
        ensures
            final(self).attachments() == old(self).attachments(),
            final(self).pending() == old(self).pending().remove(handle),
            failed == if old(self).pending().contains_key(handle) {
                Some(old(self).pending()[handle])
            } else {
                None
            },
    {
        handle_table_remove(&mut self.handle_mapping, handle)
    }

    /// Forgets the loads in flight of the nodes `released`, so that their
    /// completion will be ignored.
    pub fn drop_released(&mut self, released: &Vec<NodeId>)
        ensures
            final(self).attachments() == old(self).attachments(),
            final(self).pending() == without_nodes(old(self).pending(), released@),
    {
        let mut i: usize = 0;
        proof {
            assert(released@.subrange(0, 0) =~= Seq::<NodeId>::empty());
        }
        while i < released.len()
            invariant
                i <= released@.len(),
                self.attachments() == old(self).attachments(),
                self.pending() == without_nodes(old(self).pending(), released@.subrange(0, i as int)),
            decreases released@.len() - i,
        {
            let node = released[i];
            proof {
                let done = released@.subrange(0, i as int);
                assert(released@.subrange(0, i + 1) =~= done.push(node));
                assert(done.push(node).drop_last() =~= done);
            }
            handle_table_forget(&mut self.handle_mapping, node);
            i += 1;
        }
        proof {
            assert(released@.subrange(0, released@.len() as int) =~= released@);
        }
    }
}

/// Starts loading the attachments of the nodes `created`, which are new in
/// the atlas.
///
/// Every node that is in state `Requested` moves to `Loading`. The files to
/// load are returned, node by node in the order of `created`; the caller
/// issues each load and reports it with
/// [`AttachmentFromDiskLoader::load_issued`].
pub fn start_loading_attachment_from_disk(
    atlas: &mut NodeAtlas,
    loader: &AttachmentFromDiskLoader,
    created: &Vec<NodeId>,
) -> (requests: Vec<LoadRequest>)
    requires
        old(atlas).wf(),
    ensures
        final(atlas).wf(),
        final(atlas)@ == start_all(old(atlas)@, created@),
        is_load_plan_for_all(loader.attachments(), created@, requests@),
{
    let mut requests: Vec<LoadRequest> = Vec::new();
    let mut i: usize = 0;
    proof {
        assert(created@.subrange(0, 0) =~= Seq::<NodeId>::empty());
    }
    while i < created.len()
        invariant
            i <= created@.len(),
            atlas.wf(),
            atlas@ == start_all(old(atlas)@, created@.subrange(0, i as int)),
            is_load_plan_for_all(loader.attachments(), created@.subrange(0, i as int), requests@),
        decreases created@.len() - i,
    {
        let node = created[i];
        let ghost before = requests@;
        let ghost done = created@.subrange(0, i as int);
        atlas.start_loading(node);
        let mut plan = loader.load_requests(node);
        let ghost planned = plan@;
        requests.append(&mut plan);
        proof {
            let next = created@.subrange(0, i + 1);
            assert(next =~= done.push(node));
            assert(next.drop_last() =~= done);
            assert(requests@.subrange(0, before.len() as int) =~= before);
            assert(requests@.subrange(before.len() as int, requests@.len() as int) =~= planned);
            assert(next.last() == node);
            assert(is_load_plan_for_all(
                loader.attachments(),
                next.drop_last(),
                requests@.subrange(0, before.len() as int),
            ));
            assert(is_load_plan(
                loader.attachments(),
                next.last(),
                requests@.subrange(before.len() as int, requests@.len() as int),
            ));
        }
        i += 1;
    }
    proof {
        assert(created@.subrange(0, created@.len() as int) =~= created@);
    }
    requests
}

/// Finishes the load with the handle `handle`, which the asset server
/// reported as loaded.
///
/// A handle that is not awaited is stale: nothing changes and `None` is
/// returned. Otherwise the load is no longer in flight, its attachment is
/// marked as loaded in the atlas, which does nothing if the node was released
/// in the meantime, and the node, the attachment and the format to give the
/// image are returned.
pub fn finish_loading_attachment_from_disk(
    atlas: &mut NodeAtlas,
    loader: &mut AttachmentFromDiskLoader,
    handle: HandleId,
) -> (finished: Option<FinishedLoad>)
    requires
        old(atlas).wf(),
    ensures
        final(atlas).wf(),
        final(loader).attachments() == old(loader).attachments(),
        final(loader).pending() == old(loader).pending().remove(handle),
        finished is Some <==> old(loader).pending().contains_key(handle),
        finished is None ==> final(atlas)@ == old(atlas)@,
        finished is Some ==> {
            let awaited = old(loader).pending()[handle];
            let done = finished->Some_0;
            &&& done.node == awaited.0
            &&& done.attachment_index == awaited.1
            &&& final(atlas)@ == old(atlas)@.mark_attachment_loaded(awaited.0, awaited.1)
            &&& done.completed == (!old(atlas)@.is_loaded(awaited.0) && final(atlas)@.is_loaded(
                awaited.0,
            ))
            &&& done.format == if old(loader).attachments().contains_key(awaited.1) {
                Some(old(loader).attachments()[awaited.1].format)
            } else {
                None
            }
        },
{
    match handle_table_remove(&mut loader.handle_mapping, handle) {
        None => None,
        Some((node, attachment_index)) => {
            let format = match attachment_table_get(&loader.attachments, attachment_index) {
                Some(attachment) => Some(attachment.format),
                None => None,
            };
            let completed = atlas.mark_attachment_loaded(node, attachment_index);
            Some(FinishedLoad { node, attachment_index, format, completed })
        },
    }
}

} // verus!

//! Trees and commits: the canonical tree entry encoding
//! (`mode SP name NUL` + 20 raw id bytes, repeated), building a tree from the
//! children of a directory, and the commit text.

use crate::codec::{
    find_byte, from_hex, hex_text, hex_value, index_of, is_hex_byte, is_hex_bytes, is_id_text,
    is_object_id, lemma_index_of, lemma_object_id_hex, to_hex, utf8_string,
};
use crate::error::GitError;
use crate::codec::zlib_inflate;
use crate::objects::{
    decode_loose, load_object, object_frame, object_id, object_path, store_object, GitObject,
    GitObjectType, LooseObject,
};
use vstd::prelude::*;
use vstd::seq_lib::{to_multiset_build, to_multiset_insert};
use vstd::string::{StrSliceExecFns, StringExecFns, StringSliceAdditionalSpecFns};
use vstd::utf8::{
    decode_utf8, encode_utf8, encode_utf8_decode_utf8, encode_utf8_valid_utf8, valid_utf8,
};

verus! {

/// One entry of a tree: its mode (`"40000"` for a subtree, `"100644"` for a
/// file), its name, and the hex id of the child.
pub struct TreeNode {
    pub permissions: String,
    pub filename: String,
    pub hash: String,
}

/// `(mode, name, id)` of a tree entry.
pub type NodeModel = (Seq<char>, Seq<char>, Seq<char>);

impl View for TreeNode {
    type V = NodeModel;

    open spec fn view(&self) -> NodeModel {
        (self.permissions@, self.filename@, self.hash@)
    }
}

/// The entries of a tree, in the order of its encoding.
pub struct Tree {
    pub nodes: Vec<TreeNode>,
}

pub open spec fn nodes_view(v: Seq<TreeNode>) -> Seq<NodeModel> {
    v.map_values(|n: TreeNode| n@)
}

impl View for Tree {
    type V = Seq<NodeModel>;

    open spec fn view(&self) -> Seq<NodeModel> {
        nodes_view(self.nodes@)
    }
}

/// The entries that a tree payload encodes, in order: the mode runs to the
/// first space, the name to the next NUL, then come 20 raw id bytes. Mode and
/// name must be UTF-8; a payload that ends inside an entry encodes nothing.
pub open spec fn tree_nodes(p: Seq<u8>) -> Option<Seq<NodeModel>>
    decreases p.len(),
{
    if p.len() == 0 {
        Some(Seq::empty())
    } else {
        let sp = index_of(p, 32u8) as int;
        if sp >= p.len() {
            None
        } else {
            let nul: int = sp + 1 + index_of(p.subrange(sp + 1, p.len() as int), 0u8);
            if nul + 21 > p.len() {
                None
            } else {
                let mode = p.subrange(0, sp);
                let name = p.subrange(sp + 1, nul);
                let id = p.subrange(nul + 1, nul + 21);
                if !valid_utf8(mode) || !valid_utf8(name) {
                    None
                } else {
                    match tree_nodes(p.subrange(nul + 21, p.len() as int)) {
                        Some(tail) => Some(
                            seq![(decode_utf8(mode), decode_utf8(name), hex_text(id))] + tail,
                        ),
                        None => None,
                    }
                }
            }
        }
    }
}

/// The encoding of one entry.
pub open spec fn node_bytes(n: NodeModel) -> Seq<u8> {
    encode_utf8(n.0) + seq![32u8] + encode_utf8(n.1) + seq![0u8] + hex_value(encode_utf8(n.2))
}

/// The payload of a tree with entries `nodes`.
pub open spec fn tree_bytes(nodes: Seq<NodeModel>) -> Seq<u8>
    decreases nodes.len(),
{
    if nodes.len() == 0 {
        Seq::empty()
    } else {
        node_bytes(nodes[0]) + tree_bytes(nodes.drop_first())
    }
}

/// Every entry's id is hex text, as encoding needs.
pub open spec fn hashes_are_hex(nodes: Seq<NodeModel>) -> bool {
    forall|i: int| 0 <= i < nodes.len() ==> is_hex_bytes(encode_utf8(#[trigger] nodes[i].2))
}

/// An entry that encoding and decoding keep: a mode without spaces, a name
/// without NUL or `/`, and an object id.
pub open spec fn node_well_formed(n: NodeModel) -> bool {
    &&& !encode_utf8(n.0).contains(32u8)
    &&& !encode_utf8(n.1).contains(0u8)
    &&& !n.1.contains('/')
    &&& is_object_id(n.2)
}

proof fn lemma_tree_bytes_push(nodes: Seq<NodeModel>, n: NodeModel)
    ensures
        tree_bytes(nodes.push(n)) == tree_bytes(nodes) + node_bytes(n),
    decreases nodes.len(),
{
    if nodes.len() == 0 {
        assert(nodes.push(n).drop_first() =~= Seq::empty());
        assert(tree_bytes(nodes.push(n).drop_first()) =~= Seq::empty());
        assert(nodes.push(n)[0] == n);
        assert(tree_bytes(nodes) =~= Seq::empty());
        assert(tree_bytes(nodes.push(n)) =~= node_bytes(n) + Seq::empty());
    } else {
        assert(nodes.push(n).drop_first() =~= nodes.drop_first().push(n));
        lemma_tree_bytes_push(nodes.drop_first(), n);
        assert(tree_bytes(nodes.push(n)) =~= tree_bytes(nodes) + node_bytes(n));
    }
}

/// Decodes the entries of a tree payload.
pub fn parse_tree_data(data: &[u8]) -> (r: Option<Vec<TreeNode>>)
    ensures
        tree_nodes(data@) == match r {
            Some(v) => Some(nodes_view(v@)),
            None => None,
        },
{
    let mut nodes: Vec<TreeNode> = Vec::new();
    let mut pos: usize = 0;
    assert(data@.subrange(0, data@.len() as int) =~= data@);
    assert(nodes_view(nodes@) =~= Seq::empty());
    while pos < data.len()
        invariant
            pos <= data@.len(),
            tree_nodes(data@) == match tree_nodes(data@.subrange(pos as int, data@.len() as int)) {
                Some(tail) => Some(nodes_view(nodes@) + tail),
                None => None,
            },
        decreases data@.len() - pos,
    {
        let ghost q = data@.subrange(pos as int, data@.len() as int);
        let sp = find_byte(data, pos, 32u8);
        if sp >= data.len() {
            return None;
        }
        let nul = find_byte(data, sp + 1, 0u8);
        assert(q.subrange(sp - pos + 1, q.len() as int) =~= data@.subrange(
            sp + 1,
            data@.len() as int,
        ));
        if data.len() - nul < 21 {
            return None;
        }
        let mut mode_bytes: Vec<u8> = Vec::new();
        mode_bytes.extend_from_slice(&data[pos..sp]);
        let mut name_bytes: Vec<u8> = Vec::new();
        name_bytes.extend_from_slice(&data[sp + 1..nul]);
        assert(mode_bytes@ =~= q.subrange(0, sp - pos));
        assert(name_bytes@ =~= q.subrange(sp - pos + 1, nul - pos));
        assert(data@.subrange(nul + 1, nul + 21) =~= q.subrange(nul - pos + 1, nul - pos + 21));
        assert(data@.subrange(nul + 21, data@.len() as int) =~= q.subrange(
            nul - pos + 21,
            q.len() as int,
        ));
        let permissions = match utf8_string(mode_bytes) {
            Some(s) => s,
            None => {
                return None;
            },
        };
        let filename = match utf8_string(name_bytes) {
            Some(s) => s,
            None => {
                return None;
            },
        };
        let hash = to_hex(&data[nul + 1..nul + 21]);
        let ghost before = nodes_view(nodes@);
        let node = TreeNode { permissions, filename, hash };
        let ghost nv = node@;
        nodes.push(node);
        assert(nodes_view(nodes@) =~= before.push(nv));
        proof {
            match tree_nodes(data@.subrange(nul + 21, data@.len() as int)) {
                Some(tail) => {
                    assert(before + (seq![nv] + tail) =~= before.push(nv) + tail);
                },
                None => {},
            }
        }
        pos = nul + 21;
    }
    assert(data@.subrange(pos as int, data@.len() as int) =~= Seq::empty());
    assert(nodes_view(nodes@) + Seq::<NodeModel>::empty() =~= nodes_view(nodes@));
    Some(nodes)
}

impl Tree {
    /// The entries, in order, to iterate over.
    pub fn iter(&self) -> (r: &[TreeNode])
        ensures
            r@ == self.nodes@,
    {
        self.nodes.as_slice()
    }

    /// Appends the tree's encoding to `buf`.
    pub fn to_buf(&self, buf: &mut Vec<u8>)
        requires
            hashes_are_hex(self@),
        ensures
            final(buf)@ == old(buf)@ + tree_bytes(self@),
    {
        let ghost start = buf@;
        let mut i: usize = 0;
        assert(nodes_view(self.nodes@).subrange(0, 0) =~= Seq::<NodeModel>::empty());
        while i < self.nodes.len()
            invariant
                i <= self.nodes@.len(),
                hashes_are_hex(self@),
                buf@ == start + tree_bytes(nodes_view(self.nodes@).subrange(0, i as int)),
            decreases self.nodes@.len() - i,
        {
            let node = &self.nodes[i];
            let ghost nv = node@;
            assert(nodes_view(self.nodes@)[i as int] == nv);
            assert(is_hex_bytes(encode_utf8(nv.2)));
            let ghost before = buf@;
            buf.extend_from_slice(node.permissions.as_str().as_bytes());
            buf.push(32u8);
            buf.extend_from_slice(node.filename.as_str().as_bytes());
            buf.push(0u8);
            match from_hex(node.hash.as_str().as_bytes()) {
                Some(id) => {
                    buf.extend_from_slice(id.as_slice());
                },
                None => {},
            }
            assert(buf@ =~= before + node_bytes(nv));
            proof {
                let done = nodes_view(self.nodes@).subrange(0, i as int);
                assert(nodes_view(self.nodes@).subrange(0, i + 1) =~= done.push(nv));
                lemma_tree_bytes_push(done, nv);
            }
            i = i + 1;
        }
        assert(nodes_view(self.nodes@).subrange(0, self.nodes@.len() as int) =~= self@);
    }
}

/// Decoding an encoded tree gives back its entries, in the same order.
pub proof fn lemma_tree_round_trip(nodes: Seq<NodeModel>)
    requires
        forall|i: int| 0 <= i < nodes.len() ==> node_well_formed(#[trigger] nodes[i]),
    ensures
        tree_nodes(tree_bytes(nodes)) == Some(nodes),
    decreases nodes.len(),
{
    if nodes.len() == 0 {
        assert(tree_bytes(nodes) =~= Seq::empty());
        assert(Seq::<NodeModel>::empty() =~= nodes);
    } else {
        let n = nodes[0];
        assert(node_well_formed(n));
        let rest = nodes.drop_first();
        assert forall|i: int| 0 <= i < rest.len() implies node_well_formed(#[trigger] rest[i]) by {
            assert(rest[i] == nodes[i + 1]);
        }
        lemma_tree_round_trip(rest);
        let m = encode_utf8(n.0);
        let nm = encode_utf8(n.1);
        lemma_object_id_hex(n.2);
        let id = hex_value(encode_utf8(n.2));
        let tail = tree_bytes(rest);
        let p = tree_bytes(nodes);
        assert(p =~= m + seq![32u8] + nm + seq![0u8] + id + tail);
        assert forall|j: int| 0 <= j < m.len() implies p[j] != 32u8 by {
            assert(p[j] == m[j]);
            assert(m.contains(m[j]));
        }
        lemma_index_of(p, 32u8, m.len() as int);
        let sp = m.len() as int;
        let after = p.subrange(sp + 1, p.len() as int);
        assert(after =~= nm + seq![0u8] + id + tail);
        assert forall|j: int| 0 <= j < nm.len() implies after[j] != 0u8 by {
            assert(after[j] == nm[j]);
            assert(nm.contains(nm[j]));
        }
        lemma_index_of(after, 0u8, nm.len() as int);
        let nul = sp + 1 + nm.len();
        assert(p.subrange(0, sp) =~= m);
        assert(p.subrange(sp + 1, nul) =~= nm);
        assert(p.subrange(nul + 1, nul + 21) =~= id);
        assert(p.subrange(nul + 21, p.len() as int) =~= tail);
        encode_utf8_valid_utf8(n.0);
        encode_utf8_valid_utf8(n.1);
        encode_utf8_decode_utf8(n.0);
        encode_utf8_decode_utf8(n.1);
        assert(seq![n] + rest =~= nodes);
    }
}

/// The entries of a tree object.
pub fn parse_tree(tree: &GitObject) -> (r: Result<Vec<TreeNode>, GitError>)
    ensures
        tree.type_ != GitObjectType::Tree ==> r == Err::<Vec<TreeNode>, GitError>(
            GitError::WrongKind,
        ),
        tree.type_ == GitObjectType::Tree ==> match tree_nodes(tree.data@) {
            Some(nodes) => (r matches Ok(v) && nodes_view(v@) == nodes),
            None => r == Err::<Vec<TreeNode>, GitError>(GitError::Corrupt),
        },
{
    if tree.type_ != GitObjectType::Tree {
        return Err(GitError::WrongKind);
    }
    match parse_tree_data(tree.data.as_slice()) {
        Some(v) => Ok(v),
        None => Err(GitError::Corrupt),
    }
}

/// What listing the stored (compressed) object `raw` as a tree gives.
pub open spec fn list_tree(raw: Seq<u8>) -> Result<Seq<NodeModel>, GitError> {
    match decode_loose(raw) {
        None => Err(GitError::Corrupt),
        Some((k, p)) => if k != GitObjectType::Tree {
            Err(GitError::WrongKind)
        } else {
            match tree_nodes(p) {
                Some(nodes) => Ok(nodes),
                None => Err(GitError::Corrupt),
            }
        },
    }
}

impl Tree {
    /// The tree that a loaded object holds; fails with `WrongKind` for a blob
    /// or commit and with `Corrupt` for an entry list that does not decode.
    pub fn new(tree: &GitObject) -> (r: Result<Tree, GitError>)
        ensures
            tree.type_ != GitObjectType::Tree ==> r == Err::<Tree, GitError>(GitError::WrongKind),
            tree.type_ == GitObjectType::Tree ==> match tree_nodes(tree.data@) {
                Some(nodes) => (r matches Ok(t) && t@ == nodes),
                None => r == Err::<Tree, GitError>(GitError::Corrupt),
            },
    {
        let nodes = parse_tree(tree)?;
        Ok(Tree { nodes })
    }
}

/// Lists the tree stored as the (compressed) bytes `raw`, entries in the
/// order of their encoding.
pub fn lstree(raw: &[u8]) -> (r: Result<Tree, GitError>)
    ensures
        list_tree(raw@) == match r {
            Ok(t) => Ok(t@),
            Err(e) => Err(e),
        },
{
    let obj = load_object(raw)?;
    let tree = Tree::new(&obj)?;
    Ok(tree)
}

impl TreeNode {
    /// Whether the entry is a subtree (mode `40000`).
    pub fn is_subtree(&self) -> (r: bool)
        ensures
            r == (self.permissions@ == "40000"@),
    {
        let dir_mode = "40000".to_owned();
        self.permissions == dir_mode
    }
}

// ---------------------------------------------------------------------------
// Building a tree from a directory's children

/// A direct child of a directory, already stored: its name, whether it is a
/// directory, and the id of its tree or blob.
pub struct DirChild {
    pub name: String,
    pub is_dir: bool,
    pub hash: String,
}

/// `(name, is_dir, id)` of a directory child.
pub type ChildModel = (Seq<char>, bool, Seq<char>);

impl View for DirChild {
    type V = ChildModel;

    open spec fn view(&self) -> ChildModel {
        (self.name@, self.is_dir, self.hash@)
    }
}

pub open spec fn children_view(v: Seq<DirChild>) -> Seq<ChildModel> {
    v.map_values(|c: DirChild| c@)
}

/// The tree entry of a child: mode `40000` for a directory, `100644` for a file.
pub open spec fn child_node(c: ChildModel) -> NodeModel {
    (if c.1 {
        "40000"@
    } else {
        "100644"@
    }, c.0, c.2)
}

/// Whether a child is the repository's metadata directory, which the root
/// tree leaves out.
pub open spec fn is_metadata(name: Seq<char>, is_root: bool) -> bool {
    is_root && name == ".git"@
}

/// Whether the child `name` is the metadata directory that a tree of a
/// directory (the root when `is_root`) leaves out.
pub fn is_metadata_dir(name: &String, is_root: bool) -> (r: bool)
    ensures
        r == is_metadata(name@, is_root),
{
    let metadata = ".git".to_owned();
    is_root && *name == metadata
}

/// The entries for the children that a tree keeps, in the given order.
pub open spec fn child_nodes(children: Seq<ChildModel>, is_root: bool) -> Seq<NodeModel>
    decreases children.len(),
{
    if children.len() == 0 {
        Seq::empty()
    } else {
        let rest = child_nodes(children.drop_last(), is_root);
        let c = children.last();
        if is_metadata(c.0, is_root) {
            rest
        } else {
            rest.push(child_node(c))
        }
    }
}

/// A child id that an entry can encode: forty hex digits.
pub open spec fn hash_ok(h: Seq<char>) -> bool {
    is_hex_bytes(encode_utf8(h)) && encode_utf8(h).len() == 40
}

/// Every kept child has an id that an entry can encode.
pub open spec fn child_hashes_ok(children: Seq<ChildModel>, is_root: bool) -> bool {
    forall|i: int|
        0 <= i < children.len() && !is_metadata(children[i].0, is_root) ==> hash_ok(
            #[trigger] children[i].2,
        )
}

/// Byte-wise lexicographic order.
pub open spec fn bytes_le(a: Seq<u8>, b: Seq<u8>) -> bool
    decreases a.len(),
{
    if a.len() == 0 {
        true
    } else if b.len() == 0 {
        false
    } else if a[0] != b[0] {
        a[0] < b[0]
    } else {
        bytes_le(a.drop_first(), b.drop_first())
    }
}

/// Entry order in a built tree: by the UTF-8 bytes of the names.
pub open spec fn name_le(a: NodeModel, b: NodeModel) -> bool {
    bytes_le(encode_utf8(a.1), encode_utf8(b.1))
}

pub open spec fn sorted_by_name(nodes: Seq<NodeModel>) -> bool {
    forall|i: int, j: int| 0 <= i < j < nodes.len() ==> name_le(nodes[i], nodes[j])
}

proof fn lemma_bytes_le_total(a: Seq<u8>, b: Seq<u8>)
    ensures
        bytes_le(a, b) || bytes_le(b, a),
    decreases a.len(),
{
    if a.len() > 0 && b.len() > 0 && a[0] == b[0] {
        lemma_bytes_le_total(a.drop_first(), b.drop_first());
    }
}

proof fn lemma_bytes_le_trans(a: Seq<u8>, b: Seq<u8>, c: Seq<u8>)
    requires
        bytes_le(a, b),
        bytes_le(b, c),
    ensures
        bytes_le(a, c),
    decreases a.len(),
{
    if a.len() > 0 && b.len() > 0 && c.len() > 0 && a[0] == b[0] && b[0] == c[0] {
        lemma_bytes_le_trans(a.drop_first(), b.drop_first(), c.drop_first());
    }
}

/// Compares two byte strings in lexicographic order.
fn bytes_less_eq(a: &[u8], b: &[u8]) -> (r: bool)
    ensures
        r == bytes_le(a@, b@),
{
    let mut i: usize = 0;
    assert(a@.subrange(0, a@.len() as int) =~= a@);
    assert(b@.subrange(0, b@.len() as int) =~= b@);
    while i < a.len() && i < b.len() && a[i] == b[i]
        invariant
            i <= a@.len(),
            i <= b@.len(),
            bytes_le(a@, b@) == bytes_le(
                a@.subrange(i as int, a@.len() as int),
                b@.subrange(i as int, b@.len() as int),
            ),
        decreases a@.len() - i,
    {
        proof {
            let sa = a@.subrange(i as int, a@.len() as int);
            let sb = b@.subrange(i as int, b@.len() as int);
            assert(sa.drop_first() =~= a@.subrange(i + 1, a@.len() as int));
            assert(sb.drop_first() =~= b@.subrange(i + 1, b@.len() as int));
        }
        i = i + 1;
    }
    if i == a.len() {
        true
    } else if i == b.len() {
        false
    } else {
        a[i] < b[i]
    }
}

/// Sorts entries by name, keeping the same entries.
fn sort_nodes(nodes: Vec<TreeNode>) -> (r: Vec<TreeNode>)
    ensures
        sorted_by_name(nodes_view(r@)),
        nodes_view(r@).to_multiset() == nodes_view(nodes@).to_multiset(),
{
    let mut input = nodes;
    let ghost given = nodes_view(input@);
    let mut out: Vec<TreeNode> = Vec::new();
    assert(nodes_view(out@) =~= Seq::empty());
    assert(given.subrange(given.len() as int, given.len() as int) =~= Seq::empty());
    while input.len() > 0
        invariant
            input@.len() <= given.len(),
            nodes_view(input@) == given.subrange(0, input@.len() as int),
            sorted_by_name(nodes_view(out@)),
            nodes_view(out@).to_multiset() == given.subrange(
                input@.len() as int,
                given.len() as int,
            ).to_multiset(),
        decreases input@.len(),
    {
        let ghost k = input@.len() as int;
        let ghost old_in = input@;
        let node = input.pop().unwrap();
        let ghost x = node@;
        assert(nodes_view(old_in)[k - 1] == old_in[k - 1]@);
        assert(nodes_view(input@) =~= given.subrange(0, k - 1));
        assert(x == given[k - 1]);
        let key = node.filename.as_str().as_bytes();
        let mut j: usize = 0;
        while j < out.len() && bytes_less_eq(out[j].filename.as_str().as_bytes(), key)
            invariant
                j <= out@.len(),
                forall|i: int| 0 <= i < j ==> name_le(#[trigger] nodes_view(out@)[i], x),
                key@ == encode_utf8(x.1),
            decreases out@.len() - j,
        {
            assert(nodes_view(out@)[j as int] == out@[j as int]@);
            j = j + 1;
        }
        let ghost before = nodes_view(out@);
        proof {
            if j < before.len() {
                assert(before[j as int] == out@[j as int]@);
                assert(!name_le(before[j as int], x));
                lemma_bytes_le_total(encode_utf8(before[j as int].1), encode_utf8(x.1));
            }
        }
        out.insert(j, node);
        let ghost after = nodes_view(out@);
        assert(after =~= before.insert(j as int, x));
        proof {
            assert forall|a: int, b: int| 0 <= a < b < after.len() implies name_le(
                after[a],
                after[b],
            ) by {
                if b < j {
                } else if b == j {
                } else if a < j {
                    assert(after[b] == before[b - 1]);
                    assert(name_le(before[a], x));
                    lemma_bytes_le_total(encode_utf8(before[j as int].1), encode_utf8(x.1));
                    assert(name_le(x, before[j as int]));
                    if b - 1 > j {
                        assert(name_le(before[j as int], before[b - 1]));
                        lemma_bytes_le_trans(
                            encode_utf8(x.1),
                            encode_utf8(before[j as int].1),
                            encode_utf8(before[b - 1].1),
                        );
                    }
                    lemma_bytes_le_trans(
                        encode_utf8(before[a].1),
                        encode_utf8(x.1),
                        encode_utf8(before[b - 1].1),
                    );
                } else if a == j {
                    assert(after[b] == before[b - 1]);
                    lemma_bytes_le_total(encode_utf8(before[j as int].1), encode_utf8(x.1));
                    if b - 1 > j {
                        assert(name_le(before[j as int], before[b - 1]));
                        lemma_bytes_le_trans(
                            encode_utf8(x.1),
                            encode_utf8(before[j as int].1),
                            encode_utf8(before[b - 1].1),
                        );
                    }
                } else {
                    assert(after[a] == before[a - 1]);
                    assert(after[b] == before[b - 1]);
                }
            }
            to_multiset_insert(before, j as int, x);
            let done = given.subrange(k, given.len() as int);
            assert(given.subrange(k - 1, given.len() as int) =~= seq![x] + done);
            vstd::seq_lib::lemma_multiset_commutative(seq![x], done);
            to_multiset_build(Seq::<NodeModel>::empty(), x);
            vstd::seq_lib::lemma_multiset_commutative(done, seq![x]);
            assert(done + seq![x] =~= done.push(x));
            to_multiset_build(done, x);
        }
    }
    assert(given.subrange(0, given.len() as int) =~= given);
    out
}

/// Checks that `h` is forty hex digits.
fn is_encodable_hash(h: &String) -> (r: bool)
    ensures
        r == hash_ok(h@),
{
    let b = h.as_str().as_bytes();
    assert(b@ == encode_utf8(h@));
    if b.len() != 40 {
        return false;
    }
    let mut i: usize = 0;
    while i < b.len()
        invariant
            i <= b@.len(),
            b@.len() == 40,
            b@ == encode_utf8(h@),
            forall|j: int| 0 <= j < i ==> is_hex_byte(#[trigger] b@[j]),
        decreases b@.len() - i,
    {
        let c = b[i];
        if !((48u8 <= c && c <= 57u8) || (97u8 <= c && c <= 102u8) || (65u8 <= c && c <= 70u8)) {
            assert(!is_hex_byte(b@[i as int]));
            assert(!is_hex_bytes(b@));
            return false;
        }
        i = i + 1;
    }
    true
}

/// Builds the tree of a directory from its stored children: the root leaves
/// out `.git`, subdirectories get mode `40000` and files `100644`, entries
/// come sorted by name. Returns the tree and the tree object to store; fails
/// with `Corrupt` exactly when a kept child's id is not forty hex digits.
pub fn hash_dir(children: &Vec<DirChild>, is_root: bool) -> (r: Result<(Tree, LooseObject), GitError>)
    ensures
        child_hashes_ok(children_view(children@), is_root) <==> r is Ok,
        r matches Ok((tree, lo)) ==> {
            &&& sorted_by_name(tree@)
            &&& tree@.to_multiset() == child_nodes(children_view(children@), is_root).to_multiset()
            &&& lo.id@ == object_id(GitObjectType::Tree, tree_bytes(tree@))
            &&& lo.path@ == object_path(lo.id@)
            &&& zlib_inflate(lo.data@) == Some(
                (lo.data@.len(), object_frame(GitObjectType::Tree, tree_bytes(tree@))),
            )
        },
        r matches Err(e) ==> e == GitError::Corrupt,
{
    let ghost cv = children_view(children@);
    let mut nodes: Vec<TreeNode> = Vec::new();
    let mut i: usize = 0;
    assert(nodes_view(nodes@) =~= child_nodes(cv.subrange(0, 0), is_root));
    while i < children.len()
        invariant
            i <= children@.len(),
            cv == children_view(children@),
            nodes_view(nodes@) == child_nodes(cv.subrange(0, i as int), is_root),
            child_hashes_ok(cv.subrange(0, i as int), is_root),
            forall|k: int| 0 <= k < nodes@.len() ==> hash_ok(#[trigger] nodes_view(nodes@)[k].2),
        decreases children@.len() - i,
    {
        let child = &children[i];
        let ghost c = child@;
        assert(cv[i as int] == c);
        let ghost prefix = cv.subrange(0, i as int + 1);
        assert(prefix.drop_last() =~= cv.subrange(0, i as int));
        assert(prefix.last() == c);
        if !is_metadata_dir(&child.name, is_root) {
            if !is_encodable_hash(&child.hash) {
                assert(!child_hashes_ok(cv, is_root)) by {
                    assert(!hash_ok(cv[i as int].2));
                }
                return Err(GitError::Corrupt);
            }
            let permissions = if child.is_dir {
                "40000".to_owned()
            } else {
                "100644".to_owned()
            };
            let ghost before = nodes_view(nodes@);
            let node = TreeNode {
                permissions,
                filename: child.name.clone(),
                hash: child.hash.clone(),
            };
            assert(node@ == child_node(c));
            nodes.push(node);
            assert(nodes_view(nodes@) =~= before.push(child_node(c)));
        }
        assert forall|k: int|
            0 <= k < prefix.len() && !is_metadata(prefix[k].0, is_root) implies hash_ok(
            #[trigger] prefix[k].2,
        ) by {
            if k < i {
                assert(prefix[k] == cv.subrange(0, i as int)[k]);
            }
        }
        i = i + 1;
    }
    assert(cv.subrange(0, children@.len() as int) =~= cv);
    let ghost unsorted = nodes_view(nodes@);
    let sorted = sort_nodes(nodes);
    let tree = Tree { nodes: sorted };
    proof {
        assert forall|k: int| 0 <= k < tree@.len() implies is_hex_bytes(
            encode_utf8(#[trigger] tree@[k].2),
        ) by {
            vstd::seq_lib::to_multiset_contains(tree@, tree@[k]);
            vstd::seq_lib::to_multiset_contains(unsorted, tree@[k]);
            assert(tree@.contains(tree@[k]));
            let w = choose|w: int| 0 <= w < unsorted.len() && unsorted[w] == tree@[k];
            assert(hash_ok(unsorted[w].2));
        }
    }
    let mut buf: Vec<u8> = Vec::new();
    tree.to_buf(&mut buf);
    assert(buf@ =~= tree_bytes(tree@));
    let lo = store_object(GitObjectType::Tree, buf.as_slice())?;
    Ok((tree, lo))
}

/// The root tree of a repository from the root directory's children; the
/// metadata directory `.git` is left out. Fails with `Corrupt` exactly when a
/// kept child's id is not forty hex digits.
pub fn writetree(children: &Vec<DirChild>) -> (r: Result<(Tree, LooseObject), GitError>)
    ensures
        child_hashes_ok(children_view(children@), true) <==> r is Ok,
        r matches Ok((tree, lo)) ==> {
            &&& sorted_by_name(tree@)
            &&& tree@.to_multiset() == child_nodes(children_view(children@), true).to_multiset()
            &&& lo.id@ == object_id(GitObjectType::Tree, tree_bytes(tree@))
            &&& lo.path@ == object_path(lo.id@)
            &&& zlib_inflate(lo.data@) == Some(
                (lo.data@.len(), object_frame(GitObjectType::Tree, tree_bytes(tree@))),
            )
        },
        r matches Err(e) ==> e == GitError::Corrupt,
{
    hash_dir(children, true)
}

// ---------------------------------------------------------------------------
// Commits

/// The text of a commit: its tree, its parent unless `parent` is empty, the
/// author and committer lines with the timestamp, a blank line, and the
/// message ended by a newline.
pub open spec fn commit_text(
    author: Seq<char>,
    tree: Seq<char>,
    parent: Seq<char>,
    message: Seq<char>,
    timestamp: Seq<char>,
) -> Seq<char> {
    "tree "@ + tree + "\n"@ + (if parent.len() == 0 {
        Seq::empty()
    } else {
        "parent "@ + parent + "\n"@
    }) + "author "@ + author + " "@ + timestamp + "\n"@ + "committer "@ + author + " "@ + timestamp
        + "\n"@ + "\n"@ + message + "\n"@
}

/// The bytes of a commit's text, for a given timestamp.
pub fn commit_content(
    author: &String,
    treeid: &String,
    parent_commitid: &String,
    message: &String,
    timestamp: &String,
) -> (r: Vec<u8>)
    ensures
        r@ == encode_utf8(
            commit_text(author@, treeid@, parent_commitid@, message@, timestamp@),
        ),
{
    let mut content = "tree ".to_owned();
    content.append(treeid.as_str());
    content.append("\n");
    let ghost head = content@;
    if !parent_commitid.as_str().is_empty() {
        content.append("parent ");
        content.append(parent_commitid.as_str());
        content.append("\n");
    }
    assert(content@ =~= head + (if parent_commitid@.len() == 0 {
        Seq::empty()
    } else {
        "parent "@ + parent_commitid@ + "\n"@
    }));
    content.append("author ");
    content.append(author.as_str());
    content.append(" ");
    content.append(timestamp.as_str());
    content.append("\n");
    content.append("committer ");
    content.append(author.as_str());
    content.append(" ");
    content.append(timestamp.as_str());
    content.append("\n");
    content.append("\n");
    content.append(message.as_str());
    content.append("\n");
    assert(content@ =~= commit_text(
        author@,
        treeid@,
        parent_commitid@,
        message@,
        timestamp@,
    ));
    content.as_str().as_bytes_vec()
}

/// Creates a commit of tree `treeid` with the given parent (none when empty),
/// author and message, stamped with `timestamp` (Unix seconds and zone
/// offset). Returns the commit object to store; the caller writes it and then
/// points the branch at its id.
pub fn committree(
    author: &String,
    treeid: &String,
    parent_commitid: &String,
    message: &String,
    timestamp: &String,
) -> (r: Result<LooseObject, GitError>)
    ensures
        r is Ok,
        r matches Ok(lo) ==> {
            let text = encode_utf8(
                commit_text(author@, treeid@, parent_commitid@, message@, timestamp@),
            );
            &&& lo.id@ == object_id(GitObjectType::Commit, text)
            &&& lo.path@ == object_path(lo.id@)
            &&& zlib_inflate(lo.data@) == Some(
                (lo.data@.len(), object_frame(GitObjectType::Commit, text)),
            )
            &&& decode_loose(lo.data@) == Some((GitObjectType::Commit, text))
        },
{
    let content = commit_content(author, treeid, parent_commitid, message, timestamp);
    store_object(GitObjectType::Commit, content.as_slice())
}

/// The second space-separated field of a commit's first line, as bytes:
/// the id in `tree <id>`.
pub open spec fn commit_tree_field(data: Seq<u8>) -> Option<Seq<u8>> {
    let line = data.subrange(0, index_of(data, 10u8) as int);
    let sp = index_of(line, 32u8) as int;
    if sp >= line.len() {
        None
    } else {
        let rest = line.subrange(sp + 1, line.len() as int);
        Some(rest.subrange(0, index_of(rest, 32u8) as int))
    }
}

/// The root tree id of a commit's payload, if its first line names one.
pub open spec fn commit_tree(data: Seq<u8>) -> Option<Seq<char>> {
    match commit_tree_field(data) {
        Some(f) => if valid_utf8(f) && is_object_id(decode_utf8(f)) {
            Some(decode_utf8(f))
        } else {
            None
        },
        None => None,
    }
}

/// Reads the root tree id from a commit's payload (token two of line one);
/// fails with `Corrupt` when that is not an object id.
pub fn commit_tree_id(data: &[u8]) -> (r: Result<String, GitError>)
    ensures
        commit_tree(data@) == match r {
            Ok(s) => Some(s@),
            Err(_) => None,
        },
        r matches Err(e) ==> e == GitError::Corrupt,
{
    assert(data@.subrange(0, data@.len() as int) =~= data@);
    let nl = find_byte(data, 0, 10u8);
    let line = &data[0..nl];
    assert(line@.subrange(0, line@.len() as int) =~= line@);
    let sp = find_byte(line, 0, 32u8);
    if sp >= line.len() {
        return Err(GitError::Corrupt);
    }
    let end = find_byte(line, sp + 1, 32u8);
    let mut field: Vec<u8> = Vec::new();
    field.extend_from_slice(&line[sp + 1..end]);
    let ghost rest = line@.subrange(sp + 1, line@.len() as int);
    assert(field@ =~= rest.subrange(0, index_of(rest, 32u8) as int));
    let text = match utf8_string(field) {
        Some(t) => t,
        None => {
            return Err(GitError::Corrupt);
        },
    };
    if !is_id_text(&text) {
        return Err(GitError::Corrupt);
    }
    Ok(text)
}

} // verus!

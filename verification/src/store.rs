//! The node store: an explicit in-memory index of node directories, the
//! durable filesystem layout being a mirror of it.
//!
//! Every stored node is one entry: the chain of directory names from the
//! root (`"<id> <title>"` at each level), the id, the title, the optional
//! `after` reference, and the content body.

use vstd::prelude::*;
use crate::error::Error;
use crate::identity::compute_id;
use crate::identity::compute_id_spec;
use crate::node::Meta;
use crate::node::Node;
use crate::text::dec_str_of;
use crate::text::str_eq;
use crate::text::str_starts_with;
use crate::text::u32_to_dec;
use crate::tree::lemma_below_at_lt;
use crate::tree::lemma_below_at_push;
use crate::tree::lemma_build_nodes_push;
use crate::tree::lemma_children_at_contains;
use crate::tree::lemma_children_at_push;
use crate::tree::lemma_flatten_forest_add;
use crate::tree::lemma_node_models_index;
use crate::tree::lemma_node_models_push;
use crate::tree::lemma_sort_commutes;
use crate::tree::m_below_at;
use crate::tree::m_below_pred;
use crate::tree::m_build_nodes;
use crate::tree::m_child_pred;
use crate::tree::m_children_at;
use crate::tree::m_flatten_forest;
use crate::tree::m_forest_at;
use crate::tree::node_model;
use crate::tree::node_models;
use crate::tree::NodeModel;

verus! {

broadcast use vstd::seq::group_seq_axioms, vstd::std_specs::vec::group_vec_axioms;


/// One node directory: its place in the tree and what the two files inside
/// it hold.
#[derive(Debug)]
pub struct NodeEntry {
    /// Directory-name chain from the root; the last component is this
    /// node's own directory name, `"<id> <title>"`.
    pub path: Vec<String>,
    /// The node's id, the decimal form of the title hash.
    pub id: String,
    /// The node's title/blurb.
    pub title: String,
    /// Optional id of the sibling node that should precede this one.
    pub after: Option<String>,
    /// The content body.
    pub content: String,
}

/// The mathematical shape of one entry.
pub struct EntryModel {
    pub path: Seq<Seq<char>>,
    pub id: Seq<char>,
    pub title: Seq<char>,
    pub after: Option<Seq<char>>,
    pub content: Seq<char>,
}

impl View for NodeEntry {
    type V = EntryModel;

    open spec fn view(&self) -> EntryModel {
        EntryModel {
            path: self.path.deep_view(),
            id: self.id@,
            title: self.title@,
            after: self.after.deep_view(),
            content: self.content@,
        }
    }
}

impl DeepView for NodeEntry {
    type V = EntryModel;

    open spec fn deep_view(&self) -> EntryModel {
        self.view()
    }
}

impl Clone for NodeEntry {
    fn clone(&self) -> (r: Self)
        ensures
            r@ == self@,
    {
        let mut path: Vec<String> = Vec::new();
        let mut i: usize = 0;
        while i < self.path.len()
            invariant
                0 <= i <= self.path@.len(),
                path@.len() == i,
                forall|k: int| 0 <= k < i ==> path@[k] == self.path@[k],
            decreases self.path@.len() - i,
        {
            path.push(self.path[i].clone());
            i = i + 1;
        }
        let after = match &self.after {
            Some(a) => Some(a.clone()),
            None => None,
        };
        let r = NodeEntry {
            path,
            id: self.id.clone(),
            title: self.title.clone(),
            after,
            content: self.content.clone(),
        };
        proof {
            assert(r.path.deep_view() =~= self.path.deep_view());
            assert(r@ =~= self@);
        }
        r
    }
}

/// The directory name of a node: its id, one space, its title.
pub open spec fn dir_name_spec(id: Seq<char>, title: Seq<char>) -> Seq<char> {
    id + seq![' '] + title
}

/// The directory name of a node, as executable code.
pub fn dir_name(id: &str, title: &str) -> (r: String)
    ensures
        r@ == dir_name_spec(id@, title@),
{
    let mut r = String::new();
    r.append(id);
    r.append(" ");
    r.append(title);
    proof {
        reveal_strlit(" ");
        assert(r@ =~= dir_name_spec(id@, title@));
    }
    r
}

/// Where the first space in `s` stands, if anywhere.
pub open spec fn first_space(s: Seq<char>) -> Option<int>
    decreases s.len(),
{
    if s.len() == 0 {
        None
    } else if s[0] == ' ' {
        Some(0)
    } else {
        match first_space(s.drop_first()) {
            Some(i) => Some(i + 1),
            None => None,
        }
    }
}

/// `first_space` finds the first space, and `None` exactly when there is
/// none.
pub proof fn lemma_first_space_spec(s: Seq<char>)
    ensures
        match first_space(s) {
            Some(i) => 0 <= i < s.len() && s[i] == ' ' && (forall|j: int|
                0 <= j < i ==> s[j] != ' '),
            None => forall|j: int| 0 <= j < s.len() ==> s[j] != ' ',
        },
    decreases s.len(),
{
    if s.len() == 0 {
    } else if s[0] == ' ' {
    } else {
        let t = s.drop_first();
        lemma_first_space_spec(t);
        match first_space(s) {
            Some(i) => {
                assert(t[i - 1] == s[i]);
                assert forall|j: int| 0 <= j < i implies s[j] != ' ' by {
                    if j > 0 {
                        assert(t[j - 1] == s[j]);
                    }
                }
            },
            None => {
                assert forall|j: int| 0 <= j < s.len() implies s[j] != ' ' by {
                    if j > 0 {
                        assert(t[j - 1] == s[j]);
                    }
                }
            },
        }
    }
}

/// Take a directory name `"<id> <title>"` apart at its first space; a name
/// without a space is no node directory.
pub fn split_dir_name(name: &str) -> (r: Option<(String, String)>)
    ensures
        match r {
            Some(p) => first_space(name@) matches Some(i) && p.0@ == name@.subrange(0, i) && p.1@
                == name@.subrange(i + 1, name@.len() as int),
            None => first_space(name@) is None,
        },
{
    let n = name.unicode_len();
    let mut i: usize = 0;
    while i < n
        invariant
            n == name@.len(),
            0 <= i <= n,
            forall|j: int| 0 <= j < i ==> name@[j] != ' ',
        decreases n - i,
    {
        if name.get_char(i) == ' ' {
            proof {
                lemma_first_space_spec(name@);
                match first_space(name@) {
                    Some(k) => {
                        if k < i as int {
                            assert(name@[k] != ' ');
                        }
                        if k > i as int {
                            assert(name@[i as int] != ' ');
                        }
                    },
                    None => {
                        assert(name@[i as int] != ' ');
                    },
                }
            }
            let id = name.substring_char(0, i);
            let title = name.substring_char(i + 1, n);
            return Some((String::from_str(id), String::from_str(title)));
        }
        i = i + 1;
    }
    proof {
        lemma_first_space_spec(name@);
        if first_space(name@) is Some {
            let k = first_space(name@)->0;
            assert(name@[k] != ' ');
        }
    }
    None
}

/// An entry is well formed when its path is non-empty and ends in its own
/// directory name.
pub open spec fn entry_wf(m: EntryModel) -> bool {
    &&& m.path.len() >= 1
    &&& m.path.last() == dir_name_spec(m.id, m.title)
}

/// The directory name of an entry: the last component of its path.
pub open spec fn dirname_of(m: EntryModel) -> Seq<char> {
    m.path.last()
}

/// Does the lookup string `h` match this entry, as a prefix of its
/// directory name?
pub open spec fn entry_matches(m: EntryModel, h: Seq<char>) -> bool {
    h.is_prefix_of(dirname_of(m))
}

/// The first entry, in traversal order, whose directory name begins with
/// `h`, if any.
pub open spec fn first_match(s: Seq<EntryModel>, h: Seq<char>) -> Option<int>
    decreases s.len(),
{
    if s.len() == 0 {
        None
    } else if entry_matches(s[0], h) {
        Some(0)
    } else {
        match first_match(s.drop_first(), h) {
            Some(i) => Some(i + 1),
            None => None,
        }
    }
}

/// `first_match` returns the first matching index, and `None` exactly when
/// no entry matches.
pub proof fn lemma_first_match_spec(s: Seq<EntryModel>, h: Seq<char>)
    ensures
        match first_match(s, h) {
            Some(i) => 0 <= i < s.len() && entry_matches(s[i], h) && (forall|j: int|
                0 <= j < i ==> !entry_matches(s[j], h)),
            None => forall|j: int| 0 <= j < s.len() ==> !entry_matches(s[j], h),
        },
    decreases s.len(),
{
    if s.len() == 0 {
    } else if entry_matches(s[0], h) {
    } else {
        let t = s.drop_first();
        lemma_first_match_spec(t, h);
        match first_match(s, h) {
            Some(i) => {
                assert(first_match(t, h) == Some(i - 1));
                assert(t[i - 1] == s[i]);
                assert forall|j: int| 0 <= j < i implies !entry_matches(s[j], h) by {
                    if j > 0 {
                        assert(t[j - 1] == s[j]);
                    }
                }
            },
            None => {
                assert forall|j: int| 0 <= j < s.len() implies !entry_matches(s[j], h) by {
                    if j > 0 {
                        assert(t[j - 1] == s[j]);
                    }
                }
            },
        }
    }
}

/// The first entry whose id is exactly `u`, if any.
pub open spec fn first_id_match(s: Seq<EntryModel>, u: Seq<char>) -> Option<int>
    decreases s.len(),
{
    if s.len() == 0 {
        None
    } else if s[0].id == u {
        Some(0)
    } else {
        match first_id_match(s.drop_first(), u) {
            Some(i) => Some(i + 1),
            None => None,
        }
    }
}

/// Some entry of `s` has id `u`.
pub open spec fn id_exists(s: Seq<EntryModel>, u: Seq<char>) -> bool {
    exists|i: int| 0 <= i < s.len() && s[i].id == u
}

/// `first_id_match` returns the first entry with the id, and `None` exactly
/// when the id is absent.
pub proof fn lemma_first_id_match_spec(s: Seq<EntryModel>, u: Seq<char>)
    ensures
        match first_id_match(s, u) {
            Some(i) => 0 <= i < s.len() && s[i].id == u && (forall|j: int|
                0 <= j < i ==> s[j].id != u),
            None => !id_exists(s, u),
        },
    decreases s.len(),
{
    if s.len() == 0 {
    } else if s[0].id == u {
    } else {
        let t = s.drop_first();
        lemma_first_id_match_spec(t, u);
        match first_id_match(s, u) {
            Some(i) => {
                assert(first_id_match(t, u) == Some(i - 1));
                assert(t[i - 1] == s[i]);
                assert forall|j: int| 0 <= j < i implies s[j].id != u by {
                    if j > 0 {
                        assert(t[j - 1] == s[j]);
                    }
                }
            },
            None => {
                assert forall|i: int| 0 <= i < s.len() implies s[i].id != u by {
                    if i > 0 {
                        assert(t[i - 1] == s[i]);
                    }
                }
            },
        }
    }
}

/// The path under which a new node's directory is placed: the named
/// parent's path, or the root when no parent (or no such parent) is named.
pub open spec fn parent_path_of(s: Seq<EntryModel>, under: Option<Seq<char>>) -> Seq<Seq<char>> {
    match under {
        None => Seq::empty(),
        Some(u) => match first_id_match(s, u) {
            Some(i) => s[i].path,
            None => Seq::empty(),
        },
    }
}

/// The entry that a successful creation appends to the store `s`.
pub open spec fn created_entry_model(
    s: Seq<EntryModel>,
    blurb: Seq<char>,
    content: Seq<char>,
    under: Option<Seq<char>>,
    after: Option<Seq<char>>,
) -> EntryModel {
    let ids = dec_str_of(compute_id_spec(blurb) as nat);
    EntryModel {
        path: parent_path_of(s, under).push(dir_name_spec(ids, blurb)),
        id: ids,
        title: blurb,
        after: after,
        content: content,
    }
}

/// What survives removing the subtree rooted at the directory path `root`:
/// every entry whose path does not extend (or equal) `root`.
pub open spec fn remove_filtered(s: Seq<EntryModel>, root: Seq<Seq<char>>) -> Seq<EntryModel> {
    s.filter(|m: EntryModel| !root.is_prefix_of(m.path))
}

/// Appending one entry extends the survivors exactly when its path is not
/// under the removed root.
pub proof fn lemma_remove_filtered_push(t: Seq<EntryModel>, x: EntryModel, root: Seq<Seq<char>>)
    ensures
        remove_filtered(t.push(x), root) == if !root.is_prefix_of(x.path) {
            remove_filtered(t, root).push(x)
        } else {
            remove_filtered(t, root)
        },
{
    reveal(Seq::filter);
    assert(t.push(x).drop_last() =~= t);
}

/// Is `p` a prefix of `q`, component for component?
fn path_has_prefix(q: &Vec<String>, p: &Vec<String>) -> (r: bool)
    ensures
        r == p.deep_view().is_prefix_of(q.deep_view()),
{
    let m = p.len();
    if m > q.len() {
        return false;
    }
    let mut i: usize = 0;
    while i < m
        invariant
            m == p@.len(),
            m <= q@.len(),
            0 <= i <= m,
            forall|k: int| 0 <= k < i ==> p@[k]@ == q@[k]@,
        decreases m - i,
    {
        if !str_eq(p[i].as_str(), q[i].as_str()) {
            proof {
                assert(p.deep_view()[i as int] != q.deep_view()[i as int]);
                assert(!p.deep_view().is_prefix_of(q.deep_view()));
            }
            return false;
        }
        i = i + 1;
    }
    proof {
        assert(p.deep_view() =~= q.deep_view().subrange(0, m as int));
    }
    true
}

/// A copy of a vector of strings.
fn clone_string_vec(v: &Vec<String>) -> (r: Vec<String>)
    ensures
        r.deep_view() == v.deep_view(),
{
    let mut r: Vec<String> = Vec::new();
    let mut i: usize = 0;
    while i < v.len()
        invariant
            0 <= i <= v@.len(),
            r@.len() == i,
            forall|k: int| 0 <= k < i ==> r@[k] == v@[k],
        decreases v@.len() - i,
    {
        r.push(v[i].clone());
        i = i + 1;
    }
    proof {
        assert(r.deep_view() =~= v.deep_view());
    }
    r
}

/// The in-memory node store.
pub struct NodeManager {
    entries: Vec<NodeEntry>,
}

impl View for NodeManager {
    type V = Seq<EntryModel>;

    closed spec fn view(&self) -> Seq<EntryModel> {
        self.entries.deep_view()
    }
}

impl NodeManager {
    /// Every entry of the store is well formed.
    pub open spec fn wf(&self) -> bool {
        forall|i: int| 0 <= i < self@.len() ==> entry_wf(#[trigger] self@[i])
    }

    /// An empty store.
    pub fn new() -> (r: Self)
        ensures
            r@ == Seq::<EntryModel>::empty(),
            r.wf(),
    {
        let r = NodeManager { entries: Vec::new() };
        proof {
            assert(r@ =~= Seq::<EntryModel>::empty());
        }
        r
    }

    /// How many entries the store holds.
    pub fn len(&self) -> (r: usize)
        ensures
            r == self@.len(),
    {
        self.entries.len()
    }

    /// A copy of the entry at `i`.
    pub fn entry_at(&self, i: usize) -> (r: NodeEntry)
        requires
            i < self@.len(),
        ensures
            r@ == self@[i as int],
    {
        self.entries[i].clone()
    }

    /// The index of the first entry whose directory name begins with `h`.
    fn find_index_by_prefix(&self, h: &str) -> (r: Option<usize>)
        requires
            self.wf(),
        ensures
            match r {
                Some(i) => first_match(self@, h@) == Some(i as int),
                None => first_match(self@, h@) is None,
            },
    {
        let n = self.entries.len();
        let mut i: usize = 0;
        while i < n
            invariant
                self.wf(),
                n == self@.len(),
                0 <= i <= n,
                forall|j: int| 0 <= j < i ==> !entry_matches(self@[j], h@),
            decreases n - i,
        {
            let e = &self.entries[i];
            assert(entry_wf(self@[i as int]));
            let last = e.path[e.path.len() - 1].as_str();
            assert(last@ == dirname_of(self@[i as int]));
            if str_starts_with(last, h) {
                proof {
                    lemma_first_match_spec(self@, h@);
                    match first_match(self@, h@) {
                        Some(k) => {
                            if k < i as int {
                                assert(!entry_matches(self@[k], h@));
                            }
                            if k > i as int {
                                assert(!entry_matches(self@[i as int], h@));
                            }
                        },
                        None => {
                            assert(!entry_matches(self@[i as int], h@));
                        },
                    }
                }
                return Some(i);
            }
            i = i + 1;
        }
        proof {
            lemma_first_match_spec(self@, h@);
            if first_match(self@, h@) is Some {
                let k = first_match(self@, h@)->0;
                assert(!entry_matches(self@[k], h@));
            }
        }
        None
    }

    /// The index of the first entry whose id is exactly `u`.
    fn find_index_by_id(&self, u: &str) -> (r: Option<usize>)
        ensures
            match r {
                Some(i) => first_id_match(self@, u@) == Some(i as int),
                None => first_id_match(self@, u@) is None,
            },
    {
        let n = self.entries.len();
        let mut i: usize = 0;
        while i < n
            invariant
                n == self@.len(),
                0 <= i <= n,
                forall|j: int| 0 <= j < i ==> self@[j].id != u@,
            decreases n - i,
        {
            if str_eq(self.entries[i].id.as_str(), u) {
                proof {
                    lemma_first_id_match_spec(self@, u@);
                    match first_id_match(self@, u@) {
                        Some(k) => {
                            if k < i as int {
                                assert(self@[k].id != u@);
                            }
                            if k > i as int {
                                assert(self@[i as int].id != u@);
                            }
                        },
                        None => {
                            assert(self@[i as int].id != u@);
                        },
                    }
                }
                return Some(i);
            }
            i = i + 1;
        }
        proof {
            lemma_first_id_match_spec(self@, u@);
            if first_id_match(self@, u@) is Some {
                let k = first_id_match(self@, u@)->0;
                assert(self@[k].id != u@);
            }
        }
        None
    }

    /// Find a node by its id (or an id prefix) and return its path: the
    /// chain of directory names from the root.
    pub fn find_node_path(&self, node_hash: &str) -> (r: Result<Vec<String>, Error>)
        requires
            self.wf(),
        ensures
            match r {
                Ok(p) => first_match(self@, node_hash@) is Some && p.deep_view() == self@[first_match(
                    self@,
                    node_hash@,
                )->0].path,
                Err(e) => e == Error::NotFound && first_match(self@, node_hash@) is None,
            },
    {
        match self.find_index_by_prefix(node_hash) {
            Some(i) => {
                proof {
                    lemma_first_match_spec(self@, node_hash@);
                }
                Ok(clone_string_vec(&self.entries[i].path))
            },
            None => Err(Error::NotFound),
        }
    }

    /// The content body of the first node matching `node_hash`.
    pub fn get_node_content(&self, node_hash: &str) -> (r: Result<String, Error>)
        requires
            self.wf(),
        ensures
            match r {
                Ok(c) => first_match(self@, node_hash@) is Some && c@ == self@[first_match(
                    self@,
                    node_hash@,
                )->0].content,
                Err(e) => e == Error::NotFound && first_match(self@, node_hash@) is None,
            },
    {
        match self.find_index_by_prefix(node_hash) {
            Some(i) => {
                proof {
                    lemma_first_match_spec(self@, node_hash@);
                }
                Ok(self.entries[i].content.clone())
            },
            None => Err(Error::NotFound),
        }
    }

    /// Create a new node: compute its id from the blurb, place its directory
    /// under the parent (when one is named), and store content and metadata.
    /// Fails with `ParentNotFound` exactly when a named parent id does not
    /// exist, and with `DuplicateId` exactly when a node with the computed
    /// id is already stored (the hash is not assumed injective); either
    /// failure changes nothing.
    pub fn create_node(
        &mut self,
        blurb: &str,
        content: &str,
        under: Option<&str>,
        after: Option<&str>,
    ) -> (r: Result<u32, Error>)
        requires
            old(self).wf(),
        ensures
            final(self).wf(),
            ({
                let ids = dec_str_of(compute_id_spec(blurb@) as nat);
                let parent_ok = match under {
                    None => true,
                    Some(u) => id_exists(old(self)@, u@),
                };
                let fresh = !id_exists(old(self)@, ids);
                &&& (r is Ok <==> parent_ok && fresh)
                &&& (!parent_ok ==> r == Err::<u32, Error>(Error::ParentNotFound))
                &&& (parent_ok && !fresh ==> r == Err::<u32, Error>(Error::DuplicateId))
                &&& (r is Err ==> final(self)@ == old(self)@)
            }),
            r is Ok ==> r == Ok::<u32, Error>(compute_id_spec(blurb@)) && final(self)@ == old(
                self,
            )@.push(
                created_entry_model(
                    old(self)@,
                    blurb@,
                    content@,
                    match under {
                        Some(u) => Some(u@),
                        None => None,
                    },
                    match after {
                        Some(a) => Some(a@),
                        None => None,
                    },
                ),
            ),
    {
        let id32 = compute_id(blurb);
        let ids = u32_to_dec(id32);
        let mut path: Vec<String> = Vec::new();
        match under {
            Some(u) => {
                match self.find_index_by_id(u) {
                    Some(pi) => {
                        proof {
                            lemma_first_id_match_spec(self@, u@);
                        }
                        path = clone_string_vec(&self.entries[pi].path);
                    },
                    None => {
                        proof {
                            lemma_first_id_match_spec(self@, u@);
                        }
                        return Err(Error::ParentNotFound);
                    },
                }
            },
            None => {},
        }
        match self.find_index_by_id(ids.as_str()) {
            Some(_) => {
                proof {
                    lemma_first_id_match_spec(self@, ids@);
                }
                return Err(Error::DuplicateId);
            },
            None => {
                proof {
                    lemma_first_id_match_spec(self@, ids@);
                }
            },
        }
        let dn = dir_name(ids.as_str(), blurb);
        path.push(dn);
        let entry = NodeEntry {
            path,
            id: ids,
            title: String::from_str(blurb),
            after: match after {
                Some(a) => Some(String::from_str(a)),
                None => None,
            },
            content: String::from_str(content),
        };
        let ghost old_view = self@;
        let ghost em = entry@;
        self.entries.push(entry);
        proof {
            assert(self@ =~= old_view.push(em));
            assert(em.path =~= created_entry_model(
                old_view,
                blurb@,
                content@,
                match under {
                    Some(u) => Some(u@),
                    None => None,
                },
                match after {
                    Some(a) => Some(a@),
                    None => None,
                },
            ).path);
            assert(em == created_entry_model(
                old_view,
                blurb@,
                content@,
                match under {
                    Some(u) => Some(u@),
                    None => None,
                },
                match after {
                    Some(a) => Some(a@),
                    None => None,
                },
            ));
            assert(entry_wf(em));
        }
        Ok(id32)
    }

    /// Remove the first node matching `node_hash`, and with it everything
    /// beneath its directory (the entire subtree); returns the removed
    /// directory path.
    pub fn remove_node(&mut self, node_hash: &str) -> (r: Result<Vec<String>, Error>)
        requires
            old(self).wf(),
        ensures
            final(self).wf(),
            match r {
                Ok(p) => first_match(old(self)@, node_hash@) is Some && p.deep_view() == old(
                    self,
                )@[first_match(old(self)@, node_hash@)->0].path && final(self)@ == remove_filtered(
                    old(self)@,
                    p.deep_view(),
                ),
                Err(e) => e == Error::NotFound && first_match(old(self)@, node_hash@) is None
                    && final(self)@ == old(self)@,
            },
    {
        let idx = match self.find_index_by_prefix(node_hash) {
            Some(i) => i,
            None => {
                return Err(Error::NotFound);
            },
        };
        proof {
            lemma_first_match_spec(self@, node_hash@);
        }
        let root = clone_string_vec(&self.entries[idx].path);
        let ghost orig = self@;
        let ghost rootv = root.deep_view();
        let mut kept: Vec<NodeEntry> = Vec::new();
        let ghost mut j: int = 0;
        proof {
            assert(orig.take(0) =~= Seq::<EntryModel>::empty());
            assert(kept.deep_view() =~= Seq::<EntryModel>::empty());
            reveal(Seq::filter);
            assert(remove_filtered(orig.take(0), rootv) =~= Seq::<EntryModel>::empty());
        }
        while self.entries.len() > 0
            invariant
                rootv == root.deep_view(),
                0 <= j <= orig.len(),
                self@ =~= orig.skip(j),
                kept.deep_view() == remove_filtered(orig.take(j), rootv),
                forall|i: int| 0 <= i < orig.len() ==> entry_wf(#[trigger] orig[i]),
                forall|k: int|
                    0 <= k < kept.deep_view().len() ==> entry_wf(#[trigger] kept.deep_view()[k]),
            decreases self@.len(),
        {
            let ghost pre = self@;
            let e = self.entries.remove(0);
            proof {
                assert(pre[0] == orig.skip(j)[0]);
                assert(e@ == pre[0]);
                assert(e@ == orig[j]);
                assert(orig.take(j + 1) =~= orig.take(j).push(orig[j]));
                lemma_remove_filtered_push(orig.take(j), orig[j], rootv);
                assert forall|k: int| 0 <= k < self@.len() implies self@[k] == orig.skip(j + 1)[k]
                    by {
                    assert(self@[k] == pre[k + 1]);
                }
                assert(self@ =~= orig.skip(j + 1));
            }
            let ghost kept_before = kept.deep_view();
            let keep = !path_has_prefix(&e.path, &root);
            proof {
                assert(e.path.deep_view() == e@.path);
                assert(keep == !rootv.is_prefix_of(orig[j].path));
            }
            if keep {
                kept.push(e);
                proof {
                    assert(kept.deep_view() =~= kept_before.push(orig[j]));
                    assert(!rootv.is_prefix_of(orig[j].path));
                    assert(kept.deep_view() == remove_filtered(orig.take(j + 1), rootv));
                }
            } else {
                proof {
                    assert(rootv.is_prefix_of(orig[j].path));
                    assert(kept.deep_view() == remove_filtered(orig.take(j + 1), rootv));
                }
            }
            proof {
                j = j + 1;
            }
        }
        proof {
            assert(orig.take(j) =~= orig);
        }
        core::mem::swap(&mut self.entries, &mut kept);
        Ok(root)
    }

    /// Build the node forest from the store: every entry as a `Node`,
    /// children nested by directory layout, every sibling group sorted by
    /// its `after` references.
    pub fn get_nodes_recursive(&self) -> (r: Vec<Node>)
        ensures
            node_models(r@) == m_forest_at(self@, Seq::<Seq<char>>::empty()),
    {
        let mut pool: Vec<NodeEntry> = Vec::new();
        let mut i: usize = 0;
        while i < self.entries.len()
            invariant
                0 <= i <= self@.len(),
                pool.deep_view() =~= self@.take(i as int),
            decreases self@.len() - i,
        {
            let ghost before = pool.deep_view();
            pool.push(self.entries[i].clone());
            proof {
                assert(pool.deep_view() =~= before.push(self@[i as int]));
                assert(self@.take(i + 1) =~= self@.take(i as int).push(self@[i as int]));
            }
            i = i + 1;
        }
        proof {
            assert(self@.take(self@.len() as int) =~= self@);
            assert(pool.deep_view() == self@);
        }
        let root: Vec<String> = Vec::new();
        proof {
            assert(root.deep_view() =~= Seq::<Seq<char>>::empty());
        }
        build_forest(pool, &root)
    }

    /// Every node of the whole tree as a flat `(id, title)` list, by
    /// depth-first traversal, descending before moving to the next sibling.
    pub fn get_all_nodes_flat(&self) -> (r: Vec<(String, String)>)
        ensures
            r.deep_view() == m_flatten_forest(m_forest_at(self@, Seq::<Seq<char>>::empty())),
    {
        let forest = self.get_nodes_recursive();
        let mut out: Vec<(String, String)> = Vec::new();
        proof {
            assert(out.deep_view() =~= Seq::<(Seq<char>, Seq<char>)>::empty());
        }
        flatten_into(&forest, &mut out);
        proof {
            assert(Seq::<(Seq<char>, Seq<char>)>::empty() + m_flatten_forest(node_models(forest@))
                =~= m_flatten_forest(node_models(forest@)));
        }
        out
    }

    /// Adds one already-shaped entry, as when the store is rebuilt from the
    /// durable directory layout; a malformed entry is rejected.
    pub fn insert_entry(&mut self, e: NodeEntry) -> (r: bool)
        requires
            old(self).wf(),
        ensures
            final(self).wf(),
            r == entry_wf(e@),
            r ==> final(self)@ == old(self)@.push(e@),
            !r ==> final(self)@ == old(self)@,
    {
        let ok = if e.path.len() == 0 {
            false
        } else {
            let dn = dir_name(e.id.as_str(), e.title.as_str());
            str_eq(e.path[e.path.len() - 1].as_str(), dn.as_str())
        };
        proof {
            assert(ok == entry_wf(e@));
        }
        if ok {
            let ghost old_view = self@;
            self.entries.push(e);
            proof {
                assert(self@ =~= old_view.push(e@));
            }
            true
        } else {
            false
        }
    }
}

/// Build the forest of the pool at the path `p`: its direct children, each
/// carrying the subtree built from the entries below it, the sibling group
/// sorted by `after`.
fn build_forest(pool: Vec<NodeEntry>, p: &Vec<String>) -> (r: Vec<Node>)
    ensures
        node_models(r@) == m_forest_at(pool.deep_view(), p.deep_view()),
    decreases pool@.len(),
{
    let ghost s = pool.deep_view();
    let ghost pv = p.deep_view();
    let mut children: Vec<NodeEntry> = Vec::new();
    let mut i: usize = 0;
    proof {
        assert(s.take(0) =~= Seq::<EntryModel>::empty());
        assert(children.deep_view() =~= Seq::<EntryModel>::empty());
        reveal(Seq::filter);
    }
    while i < pool.len()
        invariant
            s == pool.deep_view(),
            pv == p.deep_view(),
            0 <= i <= s.len(),
            s.len() == pool@.len(),
            children.deep_view() == m_children_at(s.take(i as int), pv),
        decreases s.len() - i,
    {
        let e = &pool[i];
        let is_child = e.path.len() >= 1 && e.path.len() - 1 == p.len() && path_has_prefix(
            &e.path,
            p,
        );
        proof {
            assert(is_child == m_child_pred(s[i as int], pv));
            assert(s.take(i + 1) =~= s.take(i as int).push(s[i as int]));
            lemma_children_at_push(s.take(i as int), s[i as int], pv);
        }
        if is_child {
            let ghost before = children.deep_view();
            children.push(e.clone());
            proof {
                assert(children.deep_view() =~= before.push(s[i as int]));
            }
        }
        i = i + 1;
    }
    proof {
        assert(s.take(s.len() as int) =~= s);
    }
    let ghost cdv = children.deep_view();
    let mut out: Vec<Node> = Vec::new();
    let mut k: usize = 0;
    proof {
        assert(cdv.take(0) =~= Seq::<EntryModel>::empty());
        assert(node_models(out@) =~= Seq::<NodeModel>::empty());
        assert(m_build_nodes(cdv.take(0), s) =~= Seq::<NodeModel>::empty());
    }
    while k < children.len()
        invariant
            s == pool.deep_view(),
            pv == p.deep_view(),
            cdv == children.deep_view(),
            cdv == m_children_at(s, pv),
            s.len() == pool@.len(),
            cdv.len() == children@.len(),
            0 <= k <= cdv.len(),
            node_models(out@) == m_build_nodes(cdv.take(k as int), s),
        decreases cdv.len() - k,
    {
        let c = &children[k];
        proof {
            lemma_children_at_contains(s, pv, k as int);
            assert(s.contains(cdv[k as int]));
        }
        let mut sub: Vec<NodeEntry> = Vec::new();
        let mut j: usize = 0;
        proof {
            assert(s.take(0) =~= Seq::<EntryModel>::empty());
            assert(sub.deep_view() =~= Seq::<EntryModel>::empty());
            reveal(Seq::filter);
        }
        while j < pool.len()
            invariant
                s == pool.deep_view(),
                0 <= j <= s.len(),
                s.len() == pool@.len(),
                c == &children[k as int],
                k < children@.len(),
                cdv == children.deep_view(),
                sub.deep_view() == m_below_at(s.take(j as int), cdv[k as int].path),
            decreases s.len() - j,
        {
            let e = &pool[j];
            let is_below = e.path.len() > c.path.len() && path_has_prefix(&e.path, &c.path);
            proof {
                assert(c.path.deep_view() == cdv[k as int].path);
                assert(is_below == m_below_pred(s[j as int], cdv[k as int].path));
                assert(s.take(j + 1) =~= s.take(j as int).push(s[j as int]));
                lemma_below_at_push(s.take(j as int), s[j as int], cdv[k as int].path);
            }
            if is_below {
                let ghost before = sub.deep_view();
                sub.push(e.clone());
                proof {
                    assert(sub.deep_view() =~= before.push(s[j as int]));
                }
            }
            j = j + 1;
        }
        proof {
            assert(s.take(s.len() as int) =~= s);
            lemma_below_at_lt(s, cdv[k as int]);
        }
        let kids = build_forest(sub, &c.path);
        let after = match &c.after {
            Some(a) => Some(a.clone()),
            None => None,
        };
        let node = Node { id: c.id.clone(), meta: Meta::new(c.title.clone(), after), children: kids };
        let ghost out_before = out@;
        out.push(node);
        proof {
            assert(node_model(out@[out@.len() - 1]) == NodeModel {
                id: cdv[k as int].id,
                title: cdv[k as int].title,
                after: cdv[k as int].after,
                children: m_forest_at(m_below_at(s, cdv[k as int].path), cdv[k as int].path),
            });
            lemma_node_models_push(out_before, out@[out@.len() - 1]);
            lemma_build_nodes_push(cdv.take(k as int), cdv[k as int], s);
            assert(cdv.take(k + 1) =~= cdv.take(k as int).push(cdv[k as int]));
            assert(node_models(out@) =~= m_build_nodes(cdv.take(k + 1), s));
        }
        k = k + 1;
    }
    proof {
        assert(cdv.take(cdv.len() as int) =~= cdv);
        assert(node_models(out@) == m_build_nodes(m_children_at(s, pv), s));
    }
    let ghost unsorted = out@;
    NodeManager::sort_by_after_attribute(&mut out);
    proof {
        lemma_sort_commutes(unsorted);
        assert(node_models(out@) == m_forest_at(s, pv));
    }
    out
}

/// Append the depth-first `(id, title)` enumeration of the forest,
/// descending into children before moving to the next sibling.
fn flatten_into(f: &Vec<Node>, out: &mut Vec<(String, String)>)
    ensures
        final(out).deep_view() == old(out).deep_view() + m_flatten_forest(node_models(f@)),
    decreases f@,
{
    let ghost base = out.deep_view();
    let mut i: usize = 0;
    proof {
        lemma_node_models_index(f@);
        assert(node_models(f@.take(0)) =~= Seq::<NodeModel>::empty());
        assert(m_flatten_forest(node_models(f@.take(0))) =~= Seq::<(Seq<char>, Seq<char>)>::empty());
        assert(base + m_flatten_forest(node_models(f@.take(0))) =~= base);
    }
    while i < f.len()
        invariant
            base + m_flatten_forest(node_models(f@.take(i as int))) == out.deep_view(),
            0 <= i <= f@.len(),
        decreases f@.len() - i,
    {
        let n = &f[i];
        let ghost pre = out.deep_view();
        out.push((n.id.clone(), n.meta.title.clone()));
        proof {
            assert(out.deep_view() =~= pre.push((f@[i as int].id@, f@[i as int].meta.title@)));
        }
        flatten_into(&n.children, out);
        proof {
            lemma_node_models_index(f@);
            let nm = node_model(f@[i as int]);
            assert(node_models(f@.take(i + 1)) =~= node_models(f@.take(i as int)).push(nm)) by {
                lemma_node_models_index(f@.take(i as int));
                lemma_node_models_index(f@.take(i + 1));
                assert forall|q: int| 0 <= q < i + 1 implies #[trigger] node_models(f@.take(i + 1))[q]
                    == node_models(f@.take(i as int)).push(nm)[q] by {
                    assert(f@.take(i + 1)[q] == f@[q]);
                    if q < i {
                        assert(f@.take(i as int)[q] == f@[q]);
                    }
                }
            }
            assert(node_models(f@.take(i as int)).push(nm) =~= node_models(f@.take(i as int))
                + seq![nm]);
            lemma_flatten_forest_add(node_models(f@.take(i as int)), seq![nm]);
            assert(m_flatten_forest(seq![nm]) =~= seq![(nm.id, nm.title)] + m_flatten_forest(
                nm.children,
            )) by {
                assert(seq![nm].drop_first() =~= Seq::<NodeModel>::empty());
                assert(m_flatten_forest(seq![nm].drop_first()) =~= Seq::<
                    (Seq<char>, Seq<char>),
                >::empty());
                assert(seq![(nm.id, nm.title)] + m_flatten_forest(nm.children) + Seq::<
                    (Seq<char>, Seq<char>),
                >::empty() =~= seq![(nm.id, nm.title)] + m_flatten_forest(nm.children));
            }
            assert(nm.children == node_models(f@[i as int].children@));
            assert(out.deep_view() =~= base + m_flatten_forest(node_models(f@.take(i + 1))));
        }
        i = i + 1;
    }
    proof {
        assert(f@.take(f@.len() as int) =~= f@);
    }
}

/// Every node of the whole tree as a flat `(id, title)` list.
pub fn get_all_nodes_flat(mgr: &NodeManager) -> (r: Vec<(String, String)>)
    ensures
        r.deep_view() == m_flatten_forest(m_forest_at(mgr@, Seq::<Seq<char>>::empty())),
{
    mgr.get_all_nodes_flat()
}

} // verus!

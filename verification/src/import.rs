//! The import pipeline: drive a dissection provider over a document, create
//! one node per part (chained to the previous part by `after`), then re-read
//! every created node and validate that the parts reproduce the document.

use vstd::prelude::*;
use crate::dissect::blurb_of;
use crate::dissect::lemma_local_parts_lossless;
use crate::dissect::local_parts;
use crate::dissect::DummyIterator;
use crate::error::Error;
use crate::identity::compute_id_spec;
use crate::store::created_entry_model;
use crate::store::first_id_match;
use crate::store::first_match;
use crate::store::id_exists;
use crate::store::lemma_first_match_spec;
use crate::store::parent_path_of;
use crate::store::EntryModel;
use crate::store::NodeManager;
use crate::text::dec_str_of;
use crate::text::join_with;
use crate::text::join_with_str;
use crate::text::str_eq;

verus! {

/// The id a part receives: the hash of its blurb, rendered in decimal.
pub open spec fn part_id(part: Seq<char>) -> Seq<char> {
    dec_str_of(compute_id_spec(blurb_of(part)) as nat)
}

/// The ids of a part sequence, in order.
pub open spec fn import_ids(parts: Seq<Seq<char>>) -> Seq<Seq<char>> {
    parts.map_values(|p: Seq<char>| part_id(p))
}

/// The id of the last node of a chain: the predecessor that the next
/// created node will name.
pub open spec fn chain_last(prev: Option<Seq<char>>, parts: Seq<Seq<char>>) -> Option<Seq<char>> {
    if parts.len() == 0 {
        prev
    } else {
        Some(part_id(parts.last()))
    }
}

/// The entries that importing `parts` into the store `s0` appends: one per
/// part, each under the same parent, each chained after the previous.
pub open spec fn import_models(
    s0: Seq<EntryModel>,
    under: Option<Seq<char>>,
    prev: Option<Seq<char>>,
    parts: Seq<Seq<char>>,
) -> Seq<EntryModel>
    decreases parts.len(),
{
    if parts.len() == 0 {
        Seq::empty()
    } else {
        let e = created_entry_model(s0, blurb_of(parts[0]), parts[0], under, prev);
        seq![e] + import_models(s0, under, Some(e.id), parts.drop_first())
    }
}

/// Importing one more part appends one more entry, chained after the last.
pub proof fn lemma_import_models_push(
    s0: Seq<EntryModel>,
    under: Option<Seq<char>>,
    prev: Option<Seq<char>>,
    parts: Seq<Seq<char>>,
    p: Seq<char>,
)
    ensures
        import_models(s0, under, prev, parts.push(p)) == import_models(s0, under, prev, parts).push(
            created_entry_model(s0, blurb_of(p), p, under, chain_last(prev, parts)),
        ),
    decreases parts.len(),
{
    let e_p = created_entry_model(s0, blurb_of(p), p, under, chain_last(prev, parts));
    if parts.len() == 0 {
        assert(parts.push(p)[0] == p);
        assert(parts.push(p).drop_first() =~= Seq::<Seq<char>>::empty());
        let e0 = created_entry_model(
            s0,
            blurb_of(parts.push(p)[0]),
            parts.push(p)[0],
            under,
            prev,
        );
        assert(chain_last(prev, parts) == prev);
        assert(e0 == e_p);
        assert(import_models(s0, under, Some(e0.id), parts.push(p).drop_first()) =~= Seq::<
            EntryModel,
        >::empty());
        assert(import_models(s0, under, prev, parts.push(p)) =~= seq![e0]);
        assert(import_models(s0, under, prev, parts) =~= Seq::<EntryModel>::empty());
        assert(import_models(s0, under, prev, parts.push(p)) =~= import_models(
            s0,
            under,
            prev,
            parts,
        ).push(e_p));
    } else {
        let e0 = created_entry_model(s0, blurb_of(parts[0]), parts[0], under, prev);
        assert(parts.push(p)[0] == parts[0]);
        assert(parts.push(p).drop_first() =~= parts.drop_first().push(p));
        lemma_import_models_push(s0, under, Some(e0.id), parts.drop_first(), p);
        if parts.len() == 1 {
            assert(chain_last(Some(e0.id), parts.drop_first()) == Some(e0.id));
            assert(chain_last(prev, parts) == Some(part_id(parts[0])));
        } else {
            assert(parts.drop_first().last() == parts.last());
        }
        assert(import_models(s0, under, prev, parts.push(p)) =~= import_models(
            s0,
            under,
            prev,
            parts,
        ).push(e_p));
    }
}

/// The contents that the created ids read back from the store `s`, each by
/// its first directory-name match; `None` when some id finds nothing.
pub open spec fn contents_of(s: Seq<EntryModel>, ids: Seq<Seq<char>>) -> Option<Seq<Seq<char>>>
    decreases ids.len(),
{
    if ids.len() == 0 {
        Some(Seq::empty())
    } else {
        match contents_of(s, ids.drop_last()) {
            Some(cs) => match first_match(s, ids.last()) {
                Some(i) => Some(cs.push(s[i].content)),
                None => None,
            },
            None => None,
        }
    }
}

/// The shape of the imported entries: one per part, in order, each with
/// the part's id, blurb and content, chained after the previous part.
pub proof fn lemma_import_models_index(
    s0: Seq<EntryModel>,
    under: Option<Seq<char>>,
    prev: Option<Seq<char>>,
    parts: Seq<Seq<char>>,
)
    ensures
        import_models(s0, under, prev, parts).len() == parts.len(),
        forall|k: int|
            0 <= k < parts.len() ==> {
                let e = #[trigger] import_models(s0, under, prev, parts)[k];
                &&& e.id == part_id(parts[k])
                &&& e.title == blurb_of(parts[k])
                &&& e.content == parts[k]
                &&& e.path.len() >= 1
                &&& e.path.last() == crate::store::dir_name_spec(
                    part_id(parts[k]),
                    blurb_of(parts[k]),
                )
                &&& e.after == (if k == 0 {
                    prev
                } else {
                    Some(part_id(parts[k - 1]))
                })
            },
    decreases parts.len(),
{
    if parts.len() > 0 {
        let e0 = created_entry_model(s0, blurb_of(parts[0]), parts[0], under, prev);
        lemma_import_models_index(s0, under, Some(e0.id), parts.drop_first());
        let whole = import_models(s0, under, prev, parts);
        let rest = import_models(s0, under, Some(e0.id), parts.drop_first());
        assert forall|k: int| 0 <= k < parts.len() implies {
            let e = #[trigger] whole[k];
            &&& e.id == part_id(parts[k])
            &&& e.title == blurb_of(parts[k])
            &&& e.content == parts[k]
            &&& e.path.len() >= 1
            &&& e.path.last() == crate::store::dir_name_spec(part_id(parts[k]), blurb_of(parts[k]))
            &&& e.after == (if k == 0 {
                prev
            } else {
                Some(part_id(parts[k - 1]))
            })
        } by {
            if k == 0 {
                assert(whole[0] == e0);
            } else {
                assert(whole[k] == rest[k - 1]);
                assert(parts.drop_first()[k - 1] == parts[k]);
                if k > 1 {
                    assert(parts.drop_first()[k - 2] == parts[k - 1]);
                }
            }
        }
    }
}

/// When every id finds some entry, the whole read-back succeeds.
pub proof fn lemma_contents_of_some(s: Seq<EntryModel>, ids: Seq<Seq<char>>)
    requires
        forall|k: int| 0 <= k < ids.len() ==> first_match(s, #[trigger] ids[k]) is Some,
    ensures
        contents_of(s, ids) is Some,
    decreases ids.len(),
{
    if ids.len() > 0 {
        assert forall|k: int| 0 <= k < ids.drop_last().len() implies first_match(
            s,
            #[trigger] ids.drop_last()[k],
        ) is Some by {
            assert(ids.drop_last()[k] == ids[k]);
        }
        lemma_contents_of_some(s, ids.drop_last());
    }
}

/// When one id finds nothing, the whole read-back fails.
pub proof fn lemma_contents_of_none(s: Seq<EntryModel>, ids: Seq<Seq<char>>, k: int)
    requires
        0 <= k < ids.len(),
        first_match(s, ids[k]) is None,
    ensures
        contents_of(s, ids) is None,
    decreases ids.len(),
{
    if ids.len() > 0 {
        if k == ids.len() - 1 {
        } else {
            lemma_contents_of_none(s, ids.drop_last(), k);
        }
    }
}

/// An id that exists in the store keeps its first match when entries are
/// appended.
pub proof fn lemma_first_id_match_append(s: Seq<EntryModel>, t: Seq<EntryModel>, u: Seq<char>)
    requires
        first_id_match(s, u) is Some,
    ensures
        first_id_match(s + t, u) == first_id_match(s, u),
    decreases s.len(),
{
    if s.len() == 0 {
    } else if s[0].id == u {
        assert((s + t)[0] == s[0]);
    } else {
        assert((s + t)[0] == s[0]);
        assert((s + t).drop_first() =~= s.drop_first() + t);
        lemma_first_id_match_append(s.drop_first(), t, u);
    }
}

/// Part `k`'s id collides neither with the base store nor with an earlier
/// part's id, so its creation passes the uniqueness validation.
pub open spec fn part_fresh_at(s0: Seq<EntryModel>, parts: Seq<Seq<char>>, k: int) -> bool {
    &&& !id_exists(s0, part_id(parts[k]))
    &&& forall|j: int| 0 <= j < k ==> part_id(parts[j]) != part_id(parts[k])
}

/// Every part's id is fresh: absent from the base store and pairwise
/// distinct.
pub open spec fn all_parts_fresh(s0: Seq<EntryModel>, parts: Seq<Seq<char>>) -> bool {
    forall|k: int| 0 <= k < parts.len() ==> part_fresh_at(s0, parts, k)
}

/// How many leading parts are fresh: the index of the first id collision,
/// or the part count when there is none.
pub open spec fn fresh_prefix_len_from(s0: Seq<EntryModel>, parts: Seq<Seq<char>>, k: int) -> int
    decreases parts.len() - k when 0 <= k <= parts.len()
{
    if k >= parts.len() {
        k
    } else if !part_fresh_at(s0, parts, k) {
        k
    } else {
        fresh_prefix_len_from(s0, parts, k + 1)
    }
}

/// How many leading parts are fresh, counted from the start.
pub open spec fn fresh_prefix_len(s0: Seq<EntryModel>, parts: Seq<Seq<char>>) -> int {
    fresh_prefix_len_from(s0, parts, 0)
}

/// The fresh prefix ends at the first stale part, and covers everything
/// exactly when every part is fresh.
pub proof fn lemma_fresh_prefix_len_spec(s0: Seq<EntryModel>, parts: Seq<Seq<char>>)
    ensures
        0 <= fresh_prefix_len(s0, parts) <= parts.len(),
        forall|j: int| 0 <= j < fresh_prefix_len(s0, parts) ==> part_fresh_at(s0, parts, j),
        fresh_prefix_len(s0, parts) < parts.len() ==> !part_fresh_at(
            s0,
            parts,
            fresh_prefix_len(s0, parts),
        ),
        all_parts_fresh(s0, parts) <==> fresh_prefix_len(s0, parts) == parts.len(),
{
    lemma_fresh_prefix_len_from_spec(s0, parts, 0);
}

proof fn lemma_fresh_prefix_len_from_spec(s0: Seq<EntryModel>, parts: Seq<Seq<char>>, k: int)
    requires
        0 <= k <= parts.len(),
    ensures
        k <= fresh_prefix_len_from(s0, parts, k) <= parts.len(),
        forall|j: int| k <= j < fresh_prefix_len_from(s0, parts, k) ==> part_fresh_at(s0, parts, j),
        fresh_prefix_len_from(s0, parts, k) < parts.len() ==> !part_fresh_at(
            s0,
            parts,
            fresh_prefix_len_from(s0, parts, k),
        ),
    decreases parts.len() - k,
{
    if k >= parts.len() {
    } else if !part_fresh_at(s0, parts, k) {
    } else {
        lemma_fresh_prefix_len_from_spec(s0, parts, k + 1);
    }
}

/// In the store grown by the first `i` parts, part `i`'s id exists exactly
/// when it is not fresh.
pub proof fn lemma_id_exists_in_grown(
    s0: Seq<EntryModel>,
    uv: Option<Seq<char>>,
    parts: Seq<Seq<char>>,
    i: int,
)
    requires
        0 <= i < parts.len(),
    ensures
        id_exists(s0 + import_models(s0, uv, None, parts.take(i)), part_id(parts[i]))
            <==> !part_fresh_at(s0, parts, i),
{
    let taken = parts.take(i);
    let created = import_models(s0, uv, None, taken);
    let grown = s0 + created;
    lemma_import_models_index(s0, uv, None, taken);
    if id_exists(grown, part_id(parts[i])) {
        let w = choose|w: int| 0 <= w < grown.len() && grown[w].id == part_id(parts[i]);
        if w < s0.len() {
            assert(grown[w] == s0[w]);
            assert(id_exists(s0, part_id(parts[i])));
        } else {
            assert(grown[w] == created[w - s0.len()]);
            assert(created[w - s0.len()].id == part_id(taken[w - s0.len()]));
            assert(taken[w - s0.len()] == parts[w - s0.len()]);
            assert(part_id(parts[w - s0.len()]) == part_id(parts[i]));
        }
        assert(!part_fresh_at(s0, parts, i));
    }
    if !part_fresh_at(s0, parts, i) {
        if id_exists(s0, part_id(parts[i])) {
            let w = choose|w: int| 0 <= w < s0.len() && s0[w].id == part_id(parts[i]);
            assert(grown[w] == s0[w]);
            assert(id_exists(grown, part_id(parts[i])));
        } else {
            let j = choose|j: int| 0 <= j < i && part_id(parts[j]) == part_id(parts[i]);
            assert(created[j].id == part_id(taken[j]));
            assert(taken[j] == parts[j]);
            assert(grown[s0.len() + j] == created[j]);
            assert(id_exists(grown, part_id(parts[i])));
        }
    }
}

/// No space occurs in `s`.
pub open spec fn has_no_space(s: Seq<char>) -> bool {
    forall|j: int| 0 <= j < s.len() ==> s[j] != ' '
}

/// Decimal renderings hold digit characters only, never a space.
pub proof fn lemma_dec_str_no_space(n: nat)
    ensures
        has_no_space(dec_str_of(n)),
    decreases n,
{
    if n < 10 {
    } else {
        lemma_dec_str_no_space(n / 10);
        assert forall|k: int| 0 <= k < dec_str_of(n).len() implies dec_str_of(n)[k] != ' ' by {
            if k < dec_str_of(n / 10).len() {
                assert(dec_str_of(n)[k] == dec_str_of(n / 10)[k]);
            }
        }
    }
}

/// A part's id holds no space.
pub proof fn lemma_part_id_no_space(part: Seq<char>)
    ensures
        has_no_space(part_id(part)),
{
    lemma_dec_str_no_space(compute_id_spec(blurb_of(part)) as nat);
}

/// A space-free lookup string is a prefix of a directory name
/// `"<id> <title>"` exactly when it is a prefix of the id.
pub proof fn lemma_prefix_of_dirname(h: Seq<char>, id: Seq<char>, title: Seq<char>)
    requires
        has_no_space(h),
    ensures
        h.is_prefix_of(crate::store::dir_name_spec(id, title)) <==> h.is_prefix_of(id),
{
    let dn = crate::store::dir_name_spec(id, title);
    assert(dn.len() == id.len() + 1 + title.len());
    if h.is_prefix_of(id) {
        assert(dn.subrange(0, h.len() as int) =~= id.subrange(0, h.len() as int));
    }
    if h.is_prefix_of(dn) {
        if h.len() > id.len() {
            assert(dn[id.len() as int] == ' ');
            assert(h[id.len() as int] == dn.subrange(0, h.len() as int)[id.len() as int]);
            assert(h[id.len() as int] == ' ');
        }
        assert(h.len() <= id.len());
        assert(id.subrange(0, h.len() as int) =~= dn.subrange(0, h.len() as int));
    }
}

/// Read-back of freshly imported entries (the store side of the round-trip
/// law): when each entry holds its part's content under a directory name
/// `"<id> <blurb>"`, the ids are space-free, and no id is a prefix of
/// another, then each id's first match is its own entry and the contents
/// read back are exactly the parts. Together with
/// `lemma_import_models_index` (imported entries have that shape) and
/// `lemma_local_parts_lossless` (joining the split parts restores the
/// document), this gives the round-trip for a local import into an empty
/// store. An import whose part ids collide — one id a prefix of another —
/// is the known exception: a read-back may then hit the earlier entry.
pub proof fn lemma_reconstruct_imported(
    parts: Seq<Seq<char>>,
    ids: Seq<Seq<char>>,
    entries: Seq<EntryModel>,
)
    requires
        ids.len() == parts.len(),
        entries.len() == parts.len(),
        forall|k: int|
            0 <= k < parts.len() ==> {
                let e = #[trigger] entries[k];
                &&& e.id == ids[k]
                &&& e.content == parts[k]
                &&& e.path.len() >= 1
                &&& e.path.last() == crate::store::dir_name_spec(ids[k], blurb_of(parts[k]))
            },
        forall|k: int| 0 <= k < ids.len() ==> has_no_space(#[trigger] ids[k]),
        forall|i: int, j: int|
            0 <= i < ids.len() && 0 <= j < ids.len() && i != j ==> !(#[trigger] ids[i]).is_prefix_of(
                #[trigger] ids[j],
            ),
    ensures
        contents_of(entries, ids) == Some(parts),
{
    lemma_reconstruct_imported_upto(parts, ids, entries, parts.len() as int);
    assert(ids.take(parts.len() as int) =~= ids);
    assert(parts.take(parts.len() as int) =~= parts);
}

proof fn lemma_reconstruct_imported_upto(
    parts: Seq<Seq<char>>,
    ids: Seq<Seq<char>>,
    entries: Seq<EntryModel>,
    m: int,
)
    requires
        0 <= m <= parts.len(),
        ids.len() == parts.len(),
        entries.len() == parts.len(),
        forall|k: int|
            0 <= k < parts.len() ==> {
                let e = #[trigger] entries[k];
                &&& e.id == ids[k]
                &&& e.content == parts[k]
                &&& e.path.len() >= 1
                &&& e.path.last() == crate::store::dir_name_spec(ids[k], blurb_of(parts[k]))
            },
        forall|k: int| 0 <= k < ids.len() ==> has_no_space(#[trigger] ids[k]),
        forall|i: int, j: int|
            0 <= i < ids.len() && 0 <= j < ids.len() && i != j ==> !(#[trigger] ids[i]).is_prefix_of(
                #[trigger] ids[j],
            ),
    ensures
        contents_of(entries, ids.take(m)) == Some(parts.take(m)),
    decreases m,
{
    if m == 0 {
        assert(ids.take(0) =~= Seq::<Seq<char>>::empty());
        assert(parts.take(0) =~= Seq::<Seq<char>>::empty());
        assert(contents_of(entries, ids.take(0)) == Some(Seq::<Seq<char>>::empty()));
    } else {
        lemma_reconstruct_imported_upto(parts, ids, entries, m - 1);
        let idm = ids[m - 1];
        assert(ids.take(m).drop_last() =~= ids.take(m - 1));
        assert(ids.take(m).last() == idm);
        // idm matches its own entry
        assert(idm.is_prefix_of(idm)) by {
            assert(idm.subrange(0, idm.len() as int) =~= idm);
        }
        lemma_prefix_of_dirname(idm, ids[m - 1], blurb_of(parts[m - 1]));
        assert(crate::store::entry_matches(entries[m - 1], idm));
        // and no earlier entry
        assert forall|j: int| 0 <= j < m - 1 implies !crate::store::entry_matches(
            entries[j],
            idm,
        ) by {
            lemma_prefix_of_dirname(idm, ids[j], blurb_of(parts[j]));
        }
        lemma_first_match_spec(entries, idm);
        match first_match(entries, idm) {
            None => {
                assert(false);
            },
            Some(i) => {
                if i < m - 1 {
                    assert(!crate::store::entry_matches(entries[i], idm));
                }
                if i > m - 1 {
                    assert(!crate::store::entry_matches(entries[m - 1], idm));
                }
                assert(i == m - 1);
            },
        }
        assert(parts.take(m) =~= parts.take(m - 1).push(parts[m - 1]));
        assert(contents_of(entries, ids.take(m)) == Some(parts.take(m)));
    }
}

/// The round-trip law, assembled: joining a document's local parts on the
/// paragraph boundary restores the document; and whenever the ids derived
/// for those parts are pairwise prefix-free, the entries that an import
/// into an empty store creates read back to exactly those parts. Creation
/// rejects an id equal to a stored one, so of the hash-collision risks only
/// a proper-prefix pair of distinct ids (one decimal id extending another)
/// remains outside this hypothesis. With `import_local`'s own contract (the
/// report's `round_trip_ok` holds exactly when the read-back joins to the
/// document), a prefix-free import into an empty store validates
/// successfully.
pub proof fn lemma_round_trip_law(document: Seq<char>)
    ensures
        join_with(local_parts(document), "\n\n"@) == document,
        (forall|i: int, j: int|
            0 <= i < import_ids(local_parts(document)).len() && 0 <= j < import_ids(
                local_parts(document),
            ).len() && i != j ==> !(#[trigger] import_ids(local_parts(document))[i]).is_prefix_of(
                #[trigger] import_ids(local_parts(document))[j],
            )) ==> contents_of(
            import_models(Seq::empty(), None, None, local_parts(document)),
            import_ids(local_parts(document)),
        ) == Some(local_parts(document)),
{
    lemma_local_parts_lossless(document);
    let parts = local_parts(document);
    let ids = import_ids(parts);
    let entries = import_models(Seq::empty(), None, None, parts);
    if forall|i: int, j: int|
        0 <= i < ids.len() && 0 <= j < ids.len() && i != j ==> !(#[trigger] ids[i]).is_prefix_of(
            #[trigger] ids[j],
        ) {
        lemma_import_models_index(Seq::empty(), None, None, parts);
        assert(ids.len() == parts.len());
        assert forall|k: int| 0 <= k < parts.len() implies {
            let e = #[trigger] entries[k];
            &&& e.id == ids[k]
            &&& e.content == parts[k]
            &&& e.path.len() >= 1
            &&& e.path.last() == crate::store::dir_name_spec(ids[k], blurb_of(parts[k]))
        } by {
            assert(ids[k] == part_id(parts[k]));
        }
        assert forall|k: int| 0 <= k < ids.len() implies has_no_space(#[trigger] ids[k]) by {
            assert(ids[k] == part_id(parts[k]));
            lemma_part_id_no_space(parts[k]);
        }
        lemma_reconstruct_imported(parts, ids, entries);
    }
}

/// What one import records: the created node ids in creation order, how
/// many parts became nodes, how many parts the provider failed on, and
/// whether the reconstruction matched the original document.
pub struct ImportReport {
    pub created: Vec<String>,
    pub count: usize,
    pub part_errors: usize,
    pub round_trip_ok: bool,
}

/// The running state of one import: the fixed ancestor, the id of the last
/// created node, and what has been created or skipped so far.
pub struct ImportSession {
    under: Option<String>,
    last_id: Option<String>,
    created: Vec<String>,
    part_errors: usize,
}

impl ImportSession {
    /// The ancestor every created node is placed under.
    pub closed spec fn under_view(&self) -> Option<Seq<char>> {
        self.under.deep_view()
    }

    /// The id of the most recently created node.
    pub closed spec fn last_view(&self) -> Option<Seq<char>> {
        self.last_id.deep_view()
    }

    /// The ids created so far, in creation order.
    pub closed spec fn created_view(&self) -> Seq<Seq<char>> {
        self.created.deep_view()
    }

    /// How many parts the provider failed on.
    pub closed spec fn errors_view(&self) -> int {
        self.part_errors as int
    }

    pub fn new(under: Option<&str>) -> (r: Self)
        ensures
            r.under_view() == match under {
                Some(u) => Some(u@),
                None => None::<Seq<char>>,
            },
            r.last_view() is None,
            r.created_view() == Seq::<Seq<char>>::empty(),
            r.errors_view() == 0,
    {
        let under_owned = match under {
            Some(u) => Some(String::from_str(u)),
            None => None,
        };
        let r = ImportSession { under: under_owned, last_id: None, created: Vec::new(), part_errors: 0 };
        proof {
            assert(r.created_view() =~= Seq::<Seq<char>>::empty());
        }
        r
    }

    /// Feed one dissected part outcome. A part becomes a node chained after
    /// the previous one; a provider-side error is recorded and the part
    /// skipped; a store-level failure — a missing parent, or a part whose
    /// id collides with a stored node — is returned and the import stops.
    pub fn feed(&mut self, mgr: &mut NodeManager, item: Result<(String, String), Error>) -> (r:
        Result<(), Error>)
        requires
            old(mgr).wf(),
        ensures
            final(mgr).wf(),
            final(self).under_view() == old(self).under_view(),
            match item {
                Err(_) => {
                    &&& r is Ok
                    &&& final(mgr)@ == old(mgr)@
                    &&& final(self).last_view() == old(self).last_view()
                    &&& final(self).created_view() == old(self).created_view()
                    &&& final(self).errors_view() == if old(self).errors_view() < usize::MAX {
                        old(self).errors_view() + 1
                    } else {
                        old(self).errors_view()
                    }
                },
                Ok(p) => {
                    let em = created_entry_model(
                        old(mgr)@,
                        p.0@,
                        p.1@,
                        old(self).under_view(),
                        old(self).last_view(),
                    );
                    let parent_ok = match old(self).under_view() {
                        None => true,
                        Some(u) => id_exists(old(mgr)@, u),
                    };
                    let fresh = !id_exists(old(mgr)@, em.id);
                    if parent_ok && fresh {
                        &&& r is Ok
                        &&& final(mgr)@ == old(mgr)@.push(em)
                        &&& final(self).last_view() == Some(em.id)
                        &&& final(self).created_view() == old(self).created_view().push(em.id)
                        &&& final(self).errors_view() == old(self).errors_view()
                    } else {
                        &&& r == Err::<(), Error>(
                            if !parent_ok {
                                Error::ParentNotFound
                            } else {
                                Error::DuplicateId
                            },
                        )
                        &&& final(mgr)@ == old(mgr)@
                        &&& final(self).last_view() == old(self).last_view()
                        &&& final(self).created_view() == old(self).created_view()
                        &&& final(self).errors_view() == old(self).errors_view()
                    }
                },
            },
    {
        match item {
            Err(_) => {
                self.part_errors = self.part_errors.saturating_add(1);
                Ok(())
            },
            Ok(p) => {
                let under_ref = match &self.under {
                    Some(u) => Some(u.as_str()),
                    None => None,
                };
                let after_ref = match &self.last_id {
                    Some(a) => Some(a.as_str()),
                    None => None,
                };
                match mgr.create_node(p.0.as_str(), p.1.as_str(), under_ref, after_ref) {
                    Ok(id) => {
                        let ids = crate::text::u32_to_dec(id);
                        self.last_id = Some(ids.clone());
                        self.created.push(ids);
                        proof {
                            assert(self.created.deep_view() =~= old(self).created_view().push(
                                created_entry_model(
                                    old(mgr)@,
                                    p.0@,
                                    p.1@,
                                    old(self).under_view(),
                                    old(self).last_view(),
                                ).id,
                            ));
                        }
                        Ok(())
                    },
                    Err(e) => Err(e),
                }
            },
        }
    }

    /// After the last part: re-read every created node's content in
    /// creation order, join the bodies on the paragraph boundary, and
    /// compare the result with the original document.
    pub fn finish(self, mgr: &NodeManager, original: &str) -> (r: Result<ImportReport, Error>)
        requires
            mgr.wf(),
        ensures
            match r {
                Ok(rep) => {
                    &&& contents_of(mgr@, self.created_view()) is Some
                    &&& rep.created.deep_view() == self.created_view()
                    &&& rep.count == self.created_view().len()
                    &&& rep.part_errors == self.errors_view()
                    &&& rep.round_trip_ok == (join_with(
                        contents_of(mgr@, self.created_view())->0,
                        "\n\n"@,
                    ) == original@)
                },
                Err(e) => e == Error::NotFound && contents_of(mgr@, self.created_view()) is None,
            },
    {
        let mut contents: Vec<String> = Vec::new();
        let mut i: usize = 0;
        let ghost ids = self.created_view();
        let n = self.created.len();
        proof {
            assert(ids.take(0) =~= Seq::<Seq<char>>::empty());
            assert(contents.deep_view() =~= Seq::<Seq<char>>::empty());
        }
        while i < n
            invariant
                mgr.wf(),
                ids == self.created_view(),
                n == self.created@.len(),
                ids.len() == n,
                0 <= i <= n,
                contents_of(mgr@, ids.take(i as int)) == Some(contents.deep_view()),
            decreases n - i,
        {
            match mgr.get_node_content(self.created[i].as_str()) {
                Ok(c) => {
                    let ghost before = contents.deep_view();
                    contents.push(c);
                    proof {
                        assert(ids.take(i + 1).drop_last() =~= ids.take(i as int));
                        assert(ids.take(i + 1).last() == ids[i as int]);
                        assert(contents.deep_view() =~= before.push(
                            mgr@[first_match(mgr@, ids[i as int])->0].content,
                        ));
                    }
                },
                Err(_) => {
                    proof {
                        lemma_contents_of_none(mgr@, ids, i as int);
                    }
                    return Err(Error::NotFound);
                },
            }
            i = i + 1;
        }
        proof {
            assert(ids.take(n as int) =~= ids);
        }
        let reconstructed = join_with_str(&contents, "\n\n");
        let ok = str_eq(reconstructed.as_str(), original);
        let count = self.created.len();
        Ok(
            ImportReport {
                created: self.created,
                count,
                part_errors: self.part_errors,
                round_trip_ok: ok,
            },
        )
    }
}

/// Import a document through the local splitter: split it on the paragraph
/// boundary, create one node per part under `under` (each chained after the
/// previous), then validate the reconstruction. Fails with
/// `ParentNotFound`, changing nothing, exactly when `under` names an id
/// that is not in the store; fails with `DuplicateId`, keeping the nodes
/// created so far, exactly when a part's id collides with a stored node or
/// an earlier part.
pub fn import_local(mgr: &mut NodeManager, document: &str, under: Option<&str>) -> (r: Result<
    ImportReport,
    Error,
>)
    requires
        old(mgr).wf(),
    ensures
        final(mgr).wf(),
        ({
            let parts = local_parts(document@);
            let uv = match under {
                Some(u) => Some(u@),
                None => None::<Seq<char>>,
            };
            let parent_ok = match uv {
                None => true,
                Some(u) => id_exists(old(mgr)@, u),
            };
            &&& (!parent_ok ==> r == Err::<ImportReport, Error>(Error::ParentNotFound)
                && final(mgr)@ == old(mgr)@)
            &&& (parent_ok && all_parts_fresh(old(mgr)@, parts) ==> ({
                &&& r is Ok
                &&& final(mgr)@ == old(mgr)@ + import_models(old(mgr)@, uv, None, parts)
                &&& (r matches Ok(rep) && rep.created.deep_view() == import_ids(parts)
                    && rep.count == parts.len() && rep.part_errors == 0 && rep.round_trip_ok == (
                contents_of(final(mgr)@, import_ids(parts)) is Some && join_with(
                    contents_of(final(mgr)@, import_ids(parts))->0,
                    "\n\n"@,
                ) == document@))
            }))
            &&& (parent_ok && !all_parts_fresh(old(mgr)@, parts) ==> ({
                &&& r == Err::<ImportReport, Error>(Error::DuplicateId)
                &&& final(mgr)@ == old(mgr)@ + import_models(
                    old(mgr)@,
                    uv,
                    None,
                    parts.take(fresh_prefix_len(old(mgr)@, parts)),
                )
            }))
        }),
{
    let ghost s0 = mgr@;
    let ghost uv = match under {
        Some(u) => Some(u@),
        None => None::<Seq<char>>,
    };
    let ghost parts = local_parts(document@);
    let mut it = DummyIterator::new(document);
    let mut session = ImportSession::new(under);
    let ghost mut i: int = 0;
    proof {
        assert(parts.take(0) =~= Seq::<Seq<char>>::empty());
        assert(import_models(s0, uv, None, parts.take(0)) =~= Seq::<EntryModel>::empty());
        assert(s0 + import_models(s0, uv, None, parts.take(0)) =~= s0);
        assert(import_ids(parts.take(0)) =~= Seq::<Seq<char>>::empty());
    }
    loop
        invariant
            mgr.wf(),
            s0 == old(mgr)@,
            parts == local_parts(document@),
            it.parts_view() == parts,
            uv == match under {
                Some(u) => Some(u@),
                None => None::<Seq<char>>,
            },
            0 <= i <= parts.len(),
            i == it.index_view(),
            mgr@ == s0 + import_models(s0, uv, None, parts.take(i)),
            session.under_view() == uv,
            session.created_view() == import_ids(parts.take(i)),
            session.last_view() == chain_last(None, parts.take(i)),
            session.errors_view() == 0,
            forall|j: int| 0 <= j < i ==> part_fresh_at(s0, parts, j),
            match uv {
                Some(u) => i > 0 ==> id_exists(s0, u),
                None => true,
            },
        ensures
            i == parts.len(),
            mgr.wf(),
            mgr@ == s0 + import_models(s0, uv, None, parts),
            session.under_view() == uv,
            session.created_view() == import_ids(parts),
            session.errors_view() == 0,
            all_parts_fresh(s0, parts),
            match uv {
                Some(u) => id_exists(s0, u),
                None => true,
            },
        decreases parts.len() - i,
    {
        let item = match it.next() {
            Some(item) => item,
            None => {
                proof {
                    assert(parts.take(i) =~= parts);
                    crate::text::lemma_split_on_len(document@, "\n\n"@);
                }
                break ;
            },
        };
        let ghost pre_mgr = mgr@;
        let ghost pre_session_last = session.last_view();
        proof {
            // the parent, if any, still exists in the grown store
            match uv {
                Some(u) => {
                    if i > 0 {
                        assert(id_exists(s0, u));
                        crate::store::lemma_first_id_match_spec(s0, u);
                        if first_id_match(s0, u) is None {
                            assert(false);
                        }
                        let k = first_id_match(s0, u)->0;
                        assert(0 <= k < s0.len() && s0[k].id == u);
                        assert(pre_mgr[k] == (s0 + import_models(s0, uv, None, parts.take(i)))[k]);
                        assert(pre_mgr[k] == s0[k]);
                        assert(id_exists(pre_mgr, u));
                    } else {
                        assert(parts.take(0) =~= Seq::<Seq<char>>::empty());
                        assert(import_models(s0, uv, None, parts.take(0)) =~= Seq::<
                            EntryModel,
                        >::empty());
                        assert(pre_mgr =~= s0);
                    }
                },
                None => {},
            }
        }
        match session.feed(mgr, item) {
            Ok(()) => {},
            Err(e) => {
                proof {
                    let p = parts[i];
                    assert(item matches Ok(pair) && pair.0@ == blurb_of(p) && pair.1@ == p);
                    let parent_ok_pre = match uv {
                        None => true,
                        Some(u) => id_exists(pre_mgr, u),
                    };
                    if parent_ok_pre {
                        // the id validation failed: part `i` is not fresh
                        assert(e == Error::DuplicateId);
                        assert(id_exists(pre_mgr, part_id(p)));
                        lemma_id_exists_in_grown(s0, uv, parts, i);
                        assert(!part_fresh_at(s0, parts, i));
                        lemma_fresh_prefix_len_spec(s0, parts);
                        let f = fresh_prefix_len(s0, parts);
                        if f < i {
                            assert(part_fresh_at(s0, parts, f));
                        }
                        if f > i {
                            assert(part_fresh_at(s0, parts, i));
                        }
                        assert(f == i);
                        assert(!all_parts_fresh(s0, parts));
                        assert(mgr@ == s0 + import_models(s0, uv, None, parts.take(f)));
                    } else {
                        // the parent is missing: only the first step runs
                        assert(e == Error::ParentNotFound);
                        match uv {
                            Some(u) => {
                                if i > 0 {
                                    assert(id_exists(pre_mgr, u));
                                    assert(false);
                                }
                                assert(pre_mgr == s0);
                                assert(!id_exists(s0, u));
                            },
                            None => {
                                assert(false);
                            },
                        }
                        assert(mgr@ =~= s0);
                    }
                }
                return Err(e);
            },
        }
        proof {
            let p = parts[i];
            assert(item matches Ok(pair) && pair.0@ == blurb_of(p) && pair.1@ == p);
            // the step passed the id validation, so part `i` is fresh
            assert(!id_exists(pre_mgr, part_id(p)));
            lemma_id_exists_in_grown(s0, uv, parts, i);
            assert(part_fresh_at(s0, parts, i));
            // the created entry equals the model built over the base store:
            // the parent's first match is stable under appends
            match uv {
                Some(u) => {
                    assert(id_exists(pre_mgr, u));
                    if i == 0 {
                        assert(id_exists(s0, u));
                    }
                    crate::store::lemma_first_id_match_spec(s0, u);
                    if first_id_match(s0, u) is None {
                        assert(false);
                    }
                    lemma_first_id_match_append(
                        s0,
                        import_models(s0, uv, None, parts.take(i)),
                        u,
                    );
                    assert(parent_path_of(pre_mgr, uv) == parent_path_of(s0, uv));
                },
                None => {},
            }
            assert(created_entry_model(pre_mgr, blurb_of(p), p, uv, pre_session_last)
                == created_entry_model(s0, blurb_of(p), p, uv, chain_last(None, parts.take(i))));
            lemma_import_models_push(s0, uv, None, parts.take(i), p);
            assert(parts.take(i + 1) =~= parts.take(i).push(p));
            assert(mgr@ =~= s0 + import_models(s0, uv, None, parts.take(i + 1)));
            assert(import_ids(parts.take(i + 1)) =~= import_ids(parts.take(i)).push(part_id(p)));
            assert(session.created_view() =~= import_ids(parts.take(i + 1)));
            assert(session.last_view() == chain_last(None, parts.take(i + 1)));
            i = i + 1;
        }
    }
    proof {
        // every created id matches its own entry, so the read-back succeeds
        let created = import_models(s0, uv, None, parts);
        let ids = import_ids(parts);
        lemma_import_models_index(s0, uv, None, parts);
        assert(ids.len() == parts.len());
        assert forall|k: int| 0 <= k < ids.len() implies first_match(mgr@, #[trigger] ids[k])
            is Some by {
            let idk = ids[k];
            assert(idk == part_id(parts[k]));
            let pos = s0.len() + k;
            assert(mgr@[pos as int] == created[k]);
            let dn = crate::store::dir_name_spec(part_id(parts[k]), blurb_of(parts[k]));
            assert(crate::store::dirname_of(created[k]) == dn);
            assert(idk.is_prefix_of(dn)) by {
                assert(dn.subrange(0, idk.len() as int) =~= idk);
            }
            assert(crate::store::entry_matches(mgr@[pos as int], idk));
            lemma_first_match_spec(mgr@, idk);
            if first_match(mgr@, idk) is None {
                assert(!crate::store::entry_matches(mgr@[pos as int], idk));
            }
        }
        lemma_contents_of_some(mgr@, ids);
    }
    session.finish(mgr, document)
}

} // verus!

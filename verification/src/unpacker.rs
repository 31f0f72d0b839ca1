//! Whiteout and opaque bookkeeping of the layered image unpacker.
//!
//! An image is a stack of tar layers.  Layers are handed to the
//! unpacker in processing order: index 0 is the topmost layer, higher
//! indices lie deeper in the stack.  A file emitted by a layer
//! suppresses the same path in every deeper layer; a `.wh.<name>`
//! marker suppresses `<name>` beside it in every deeper layer; a
//! `.wh..wh..opq` marker inside a directory hides that directory's
//! whole subtree in every deeper layer.  Markers are recorded for
//! this bookkeeping but are never part of the unpacked output.
//!
//! Paths are byte strings whose components are separated by `/`.

use vstd::prelude::*;

verus! {

/// The byte `/`.
pub open spec fn slash() -> u8 {
    47u8
}

/// The marker prefix `.wh.`.
pub open spec fn wh_prefix() -> Seq<u8> {
    seq![46u8, 119u8, 104u8, 46u8]
}

/// The opaque marker name `.wh..wh..opq`.
pub open spec fn opq_marker() -> Seq<u8> {
    seq![46u8, 119u8, 104u8, 46u8, 46u8, 119u8, 104u8, 46u8, 46u8, 111u8, 112u8, 113u8]
}

/// The index of the last `/` of `p`, or -1 when `p` holds none.
pub open spec fn last_slash(p: Seq<u8>) -> int
    decreases p.len(),
{
    if p.len() == 0 {
        -1
    } else if p.last() == slash() {
        p.len() - 1
    } else {
        last_slash(p.drop_last())
    }
}

pub proof fn lemma_last_slash_bounds(p: Seq<u8>)
    ensures
        -1 <= last_slash(p) < p.len(),
        forall|j: int| last_slash(p) < j < p.len() ==> p[j] != slash(),
        last_slash(p) >= 0 ==> p[last_slash(p)] == slash(),
    decreases p.len(),
{
    if p.len() == 0 {
    } else if p.last() == slash() {
    } else {
        lemma_last_slash_bounds(p.drop_last());
        assert forall|j: int| last_slash(p) < j < p.len() implies p[j] != slash() by {
            if j < p.len() - 1 {
                assert(p.drop_last()[j] == p[j]);
            }
        }
        if last_slash(p) >= 0 {
            assert(p.drop_last()[last_slash(p)] == p[last_slash(p)]);
        }
    }
}

/// The directory part of `p`: everything before the last `/`, empty
/// when there is none.
pub open spec fn parent_of(p: Seq<u8>) -> Seq<u8> {
    if last_slash(p) < 0 {
        Seq::empty()
    } else {
        p.take(last_slash(p))
    }
}

/// The name part of `p`: everything after the last `/`.
pub open spec fn basename_of(p: Seq<u8>) -> Seq<u8> {
    p.skip(last_slash(p) + 1)
}

/// `name` placed inside the directory `d`.
pub open spec fn join(d: Seq<u8>, name: Seq<u8>) -> Seq<u8> {
    if d.len() == 0 {
        name
    } else {
        d + seq![slash()] + name
    }
}

/// The whiteout marker path that suppresses `p`.
pub open spec fn mask_of(p: Seq<u8>) -> Seq<u8> {
    join(parent_of(p), wh_prefix() + basename_of(p))
}

/// The opaque marker path inside the directory `a`.
pub open spec fn opq_of(a: Seq<u8>) -> Seq<u8> {
    join(a, opq_marker())
}

/// `a` lies on the directory chain of `p`: it is `p` itself, one of
/// its parents, or the empty root.
pub open spec fn is_under(a: Seq<u8>, p: Seq<u8>) -> bool
    decreases p.len(),
    via is_under_decreases
{
    if a == p {
        true
    } else if p.len() == 0 {
        false
    } else {
        is_under(a, parent_of(p))
    }
}

#[via_fn]
proof fn is_under_decreases(a: Seq<u8>, p: Seq<u8>) {
    if a != p && p.len() != 0 {
        lemma_last_slash_bounds(p);
    }
}

/// A parent of a chain member is itself a chain member.
proof fn lemma_under_parent(a: Seq<u8>, p: Seq<u8>)
    requires
        is_under(a, p),
        a.len() > 0,
    ensures
        is_under(parent_of(a), p),
    decreases p.len(),
{
    lemma_last_slash_bounds(a);
    if a == p {
        assert(is_under(parent_of(p), parent_of(p)));
    } else if p.len() == 0 {
    } else {
        lemma_last_slash_bounds(p);
        lemma_under_parent(a, parent_of(p));
    }
}

/// `p` names a whiteout or opaque marker: its basename starts with
/// `.wh.`.
pub open spec fn is_marker(p: Seq<u8>) -> bool {
    basename_of(p).len() >= 4 && basename_of(p).take(4) == wh_prefix()
}

/// `p` is recorded at some level up to `upto` of the seen state.
pub open spec fn seen_upto(st: Seq<Seq<Seq<u8>>>, upto: int, p: Seq<u8>) -> bool {
    exists|i: int| 0 <= i <= upto && i < st.len() && st[i].contains(p)
}

/// The state once level `level` exists: visiting a level for the first
/// time appends a fresh empty record for it.
pub open spec fn norm(st: Seq<Seq<Seq<u8>>>, level: int) -> Seq<Seq<Seq<u8>>> {
    if level == st.len() {
        st.push(Seq::empty())
    } else {
        st
    }
}

/// The three suppression rules that consult deeper-processed levels
/// only: the path was already emitted, an opaque marker covers one of
/// its ancestors, or its own whiteout marker was seen.
pub open spec fn early_skip(st: Seq<Seq<Seq<u8>>>, level: int, p: Seq<u8>) -> bool {
    level > 0 && (seen_upto(st, level - 1, p) || (exists|a: Seq<u8>|
        is_under(a, p) && seen_upto(st, level - 1, opq_of(a))) || seen_upto(
        st,
        level - 1,
        mask_of(p),
    ))
}

/// Whether an entry at `level` is withheld from deeper levels' point
/// of view or is itself the opaque marker.
pub open spec fn skip_spec(st: Seq<Seq<Seq<u8>>>, level: int, p: Seq<u8>) -> bool {
    early_skip(st, level, p) || basename_of(p) == opq_marker()
}

/// The seen state after one entry was decided at `level`: entries that
/// pass the early checks are recorded there.
pub open spec fn after_skip(st: Seq<Seq<Seq<u8>>>, level: int, p: Seq<u8>) -> Seq<Seq<Seq<u8>>> {
    let st2 = norm(st, level);
    if early_skip(st2, level, p) {
        st2
    } else {
        st2.update(level, st2[level].push(p))
    }
}

/// The bookkeeping of one unpacking run: which logical paths each
/// processed level has recorded.
pub struct Unpacker {
    already: Vec<Vec<Vec<u8>>>,
}

impl View for Unpacker {
    type V = Seq<Seq<Seq<u8>>>;

    closed spec fn view(&self) -> Seq<Seq<Seq<u8>>> {
        Seq::new(self.already@.len(), |i: int| self.already@[i].deep_view())
    }
}

impl Unpacker {
    /// A fresh unpacker with no recorded level.
    pub fn new() -> (r: Unpacker)
        ensures
            r@ == Seq::<Seq<Seq<u8>>>::empty(),
    {
        let r = Unpacker { already: Vec::new() };
        proof {
            assert(r@ =~= Seq::<Seq<Seq<u8>>>::empty());
        }
        r
    }

    /// Whether `path` was recorded at any level up to `level`.
    pub fn seen(&self, level: usize, path: &Vec<u8>) -> (r: bool)
        requires
            (level as int) < self@.len(),
            level < usize::MAX,
        ensures
            r == seen_upto(self@, level as int, path@),
    {
        let mut i: usize = 0;
        while i <= level
            invariant
                (level as int) < self@.len(),
                level < usize::MAX,
                0 <= i <= level + 1,
                forall|k: int| 0 <= k < i ==> !self@[k].contains(path@),
            decreases level + 1 - i,
        {
            if contains_path(&self.already[i], path) {
                proof {
                    assert(self@[i as int].contains(path@));
                }
                return true;
            }
            i = i + 1;
        }
        false
    }

    /// Whether an opaque marker recorded up to `level` covers `path`
    /// or one of its ancestors.
    fn opq_masked(&self, level: usize, path: &Vec<u8>) -> (r: bool)
        requires
            (level as int) < self@.len(),
            level < usize::MAX,
        ensures
            r == exists|a: Seq<u8>|
                is_under(a, path@) && seen_upto(self@, level as int, opq_of(a)),
    {
        let opq_name = opq_vec();
        let mut anc: Vec<u8> = vstd::slice::slice_to_vec(path.as_slice());
        loop
            invariant
                (level as int) < self@.len(),
                level < usize::MAX,
                is_under(anc@, path@),
                (exists|a: Seq<u8>|
                    is_under(a, path@) && seen_upto(self@, level as int, opq_of(a))) == (exists|
                    a: Seq<u8>,
                |
                    is_under(a, anc@) && seen_upto(self@, level as int, opq_of(a))),
                opq_name@ == opq_marker(),
            decreases anc@.len(),
        {
            let opq = join_paths(&anc, &opq_name);
            if self.seen(level, &opq) {
                proof {
                    assert(is_under(anc@, anc@));
                    assert(is_under(anc@, path@) && seen_upto(self@, level as int, opq_of(anc@)));
                }
                return true;
            }
            if anc.len() == 0 {
                proof {
                    assert forall|a: Seq<u8>|
                        is_under(a, anc@) && seen_upto(
                            self@,
                            level as int,
                            opq_of(a),
                        ) implies false by {
                        assert(a == anc@);
                    }
                }
                return false;
            }
            let next = parent_vec(&anc);
            proof {
                lemma_last_slash_bounds(anc@);
                lemma_under_parent(anc@, path@);
                // The chain below `anc` is `anc` itself plus the chain
                // below its parent; `anc` was just ruled out.
                assert forall|a: Seq<u8>|
                    is_under(a, anc@) && seen_upto(
                        self@,
                        level as int,
                        opq_of(a),
                    ) implies is_under(a, next@) && seen_upto(self@, level as int, opq_of(a)) by {
                    if a == anc@ {
                        assert(false);
                    }
                }
                assert forall|a: Seq<u8>| is_under(a, next@) implies is_under(a, anc@) by {}
            }
            anc = next;
        }
    }

    /// Decide one entry of layer `level`: record it when it survives
    /// the early checks, and say whether it must be withheld.
    pub fn skip(&mut self, level: usize, path: &Vec<u8>) -> (r: bool)
        requires
            level as int <= old(self)@.len(),
            level < usize::MAX,
        ensures
            final(self)@ == after_skip(old(self)@, level as int, path@),
            r == skip_spec(norm(old(self)@, level as int), level as int, path@),
    {
        // A level's record is created the first time the level shows up.
        if level == self.already.len() {
            self.already.push(Vec::new());
        }
        let ghost st2 = norm(old(self)@, level as int);
        proof {
            assert(self@ =~~= st2);
        }

        // Already unpacked by a level processed before this one.
        if level > 0 && self.seen(level - 1, path) {
            return true;
        }

        // An opaque marker covers this path or one of its ancestors.
        if level > 0 && self.opq_masked(level - 1, path) {
            return true;
        }

        // The path's own whiteout marker was seen.
        let mask = mask_vec(path);
        if level > 0 && self.seen(level - 1, &mask) {
            return true;
        }

        // Record the path, so that deeper levels suppress it.
        let entry = vstd::slice::slice_to_vec(path.as_slice());
        let mut row = self.already.remove(level);
        row.push(entry);
        self.already.insert(level, row);
        proof {
            assert(self.already@[level as int].deep_view() =~~= st2[level as int].push(path@));
            assert(self@ =~= st2.update(level as int, st2[level as int].push(path@)));
        }

        // The opaque marker itself is never part of the output.
        let base = basename_vec(path);
        let opq_name = opq_vec();
        bytes_eq(&base, &opq_name)
    }
}

/// The seen state after one layer's entries were decided in order.
pub open spec fn after_layer(
    st: Seq<Seq<Seq<u8>>>,
    level: int,
    es: Seq<Seq<u8>>,
) -> Seq<Seq<Seq<u8>>>
    decreases es.len(),
{
    if es.len() == 0 {
        st
    } else {
        after_layer(after_skip(st, level, es[0]), level, es.drop_first())
    }
}

/// The entries of one layer that belong to the output: those that are
/// neither suppressed nor markers.
pub open spec fn layer_emits(st: Seq<Seq<Seq<u8>>>, level: int, es: Seq<Seq<u8>>) -> Seq<Seq<u8>>
    decreases es.len(),
{
    if es.len() == 0 {
        Seq::empty()
    } else {
        let head: Seq<Seq<u8>> = if !skip_spec(norm(st, level), level, es[0]) && !is_marker(es[0]) {
            seq![es[0]]
        } else {
            Seq::empty()
        };
        head + layer_emits(after_skip(st, level, es[0]), level, es.drop_first())
    }
}

/// The seen state after the layers before index `k` were processed.
pub open spec fn state_after(layers: Seq<Seq<Seq<u8>>>, k: int) -> Seq<Seq<Seq<u8>>>
    decreases k,
{
    if k <= 0 {
        Seq::empty()
    } else {
        after_layer(state_after(layers, k - 1), k - 1, layers[k - 1])
    }
}

/// The output of the layers before index `k`, in emission order.
pub open spec fn output_upto(layers: Seq<Seq<Seq<u8>>>, k: int) -> Seq<Seq<u8>>
    decreases k,
{
    if k <= 0 {
        Seq::empty()
    } else {
        output_upto(layers, k - 1) + layer_emits(state_after(layers, k - 1), k - 1, layers[k - 1])
    }
}

/// The unpacked output of a whole stack, topmost layer first.
pub open spec fn unpack_output(layers: Seq<Seq<Seq<u8>>>) -> Seq<Seq<u8>> {
    output_upto(layers, layers.len() as int)
}

impl Unpacker {
    /// Decide one whole layer: record its surviving entries and return
    /// those that belong to the output, in order.
    pub fn entries(&mut self, level: usize, paths: &Vec<Vec<u8>>) -> (out: Vec<Vec<u8>>)
        requires
            level as int <= old(self)@.len(),
            level < usize::MAX,
        ensures
            final(self)@ == after_layer(old(self)@, level as int, paths.deep_view()),
            out.deep_view() == layer_emits(old(self)@, level as int, paths.deep_view()),
    {
        let ghost dv = paths.deep_view();
        let mut out: Vec<Vec<u8>> = Vec::new();
        let mut j: usize = 0;
        proof {
            assert(dv.take(0) =~= Seq::<Seq<u8>>::empty());
            assert(out.deep_view() =~= Seq::<Seq<u8>>::empty());
        }
        while j < paths.len()
            invariant
                level < usize::MAX,
                0 <= j <= dv.len(),
                dv == paths.deep_view(),
                dv.len() == paths@.len(),
                level as int <= self@.len(),
                self@ == after_layer(old(self)@, level as int, dv.take(j as int)),
                out.deep_view() == layer_emits(old(self)@, level as int, dv.take(j as int)),
            decreases dv.len() - j,
        {
            let p = &paths[j];
            proof {
                assert(paths@[j as int].deep_view() =~= paths@[j as int]@);
                assert(dv[j as int] == p@);
            }
            let ghost st_pre = self@;
            let sk = self.skip(level, p);
            let ghost emitted_here = !skip_spec(
                norm(st_pre, level as int),
                level as int,
                dv[j as int],
            ) && !is_marker(dv[j as int]);
            if !sk {
                if !is_marker_vec(p) {
                    out.push(vstd::slice::slice_to_vec(p.as_slice()));
                    proof {
                        assert(out.deep_view() =~= layer_emits(
                            old(self)@,
                            level as int,
                            dv.take(j as int),
                        ).push(dv[j as int]));
                    }
                }
            }
            proof {
                lemma_after_layer_snoc(old(self)@, level as int, dv.take(j as int), dv[j as int]);
                lemma_layer_emits_snoc(old(self)@, level as int, dv.take(j as int), dv[j as int]);
                assert(dv.take(j + 1) =~= dv.take(j as int).push(dv[j as int]));
                lemma_after_skip_len(st_pre, level as int, dv[j as int]);
                if emitted_here {
                    assert(layer_emits(old(self)@, level as int, dv.take(j + 1)) =~= layer_emits(
                        old(self)@,
                        level as int,
                        dv.take(j as int),
                    ).push(dv[j as int]));
                } else {
                    assert(layer_emits(old(self)@, level as int, dv.take(j + 1)) =~= layer_emits(
                        old(self)@,
                        level as int,
                        dv.take(j as int),
                    ));
                }
            }
            j = j + 1;
        }
        proof {
            assert(dv.take(dv.len() as int) =~= dv);
        }
        out
    }
}

/// Whether `p` names a whiteout or opaque marker.
pub fn is_marker_vec(p: &Vec<u8>) -> (r: bool)
    ensures
        r == is_marker(p@),
{
    let base = basename_vec(p);
    if base.len() < 4 {
        return false;
    }
    let r = base[0] == 46u8 && base[1] == 119u8 && base[2] == 104u8 && base[3] == 46u8;
    proof {
        if r {
            assert(base@.take(4) =~= wh_prefix());
        } else {
            if base@.take(4) == wh_prefix() {
                assert(base@.take(4)[0] == 46u8 && base@.take(4)[1] == 119u8 && base@.take(4)[2]
                    == 104u8 && base@.take(4)[3] == 46u8);
            }
        }
    }
    r
}

/// How the state length grows: at most the fresh record of `level`.
proof fn lemma_after_skip_len(st: Seq<Seq<Seq<u8>>>, level: int, p: Seq<u8>)
    requires
        0 <= level <= st.len(),
    ensures
        after_skip(st, level, p).len() == if level == st.len() {
            st.len() + 1
        } else {
            st.len()
        },
        level < after_skip(st, level, p).len(),
{
}

/// Deciding a layer entry by entry, one more entry at the end.
proof fn lemma_after_layer_snoc(st: Seq<Seq<Seq<u8>>>, level: int, es: Seq<Seq<u8>>, e: Seq<u8>)
    ensures
        after_layer(st, level, es.push(e)) == after_skip(after_layer(st, level, es), level, e),
    decreases es.len(),
{
    if es.len() == 0 {
        assert(es.push(e)[0] == e);
        assert(es.push(e).drop_first() =~= Seq::<Seq<u8>>::empty());
        assert(after_layer(after_skip(st, level, e), level, Seq::<Seq<u8>>::empty())
            == after_skip(st, level, e));
    } else {
        assert(es.push(e)[0] == es[0]);
        assert(es.push(e).drop_first() =~= es.drop_first().push(e));
        lemma_after_layer_snoc(after_skip(st, level, es[0]), level, es.drop_first(), e);
    }
}

/// Emitting a layer entry by entry, one more entry at the end.
proof fn lemma_layer_emits_snoc(st: Seq<Seq<Seq<u8>>>, level: int, es: Seq<Seq<u8>>, e: Seq<u8>)
    ensures
        layer_emits(st, level, es.push(e)) == layer_emits(st, level, es) + (if !skip_spec(
            norm(after_layer(st, level, es), level),
            level,
            e,
        ) && !is_marker(e) {
            seq![e]
        } else {
            Seq::<Seq<u8>>::empty()
        }),
    decreases es.len(),
{
    if es.len() == 0 {
        assert(es.push(e)[0] == e);
        assert(es.push(e).drop_first() =~= Seq::<Seq<u8>>::empty());
        assert(layer_emits(after_skip(st, level, e), level, Seq::<Seq<u8>>::empty())
            =~= Seq::<Seq<u8>>::empty());
        assert(after_layer(st, level, Seq::<Seq<u8>>::empty()) == st);
        assert(layer_emits(st, level, es.push(e)) =~= layer_emits(st, level, es) + (if !skip_spec(
            norm(after_layer(st, level, es), level),
            level,
            e,
        ) && !is_marker(e) {
            seq![e]
        } else {
            Seq::<Seq<u8>>::empty()
        }));
    } else {
        assert(es.push(e)[0] == es[0]);
        assert(es.push(e).drop_first() =~= es.drop_first().push(e));
        lemma_layer_emits_snoc(after_skip(st, level, es[0]), level, es.drop_first(), e);
        assert(layer_emits(st, level, es.push(e)) =~= layer_emits(st, level, es) + (if !skip_spec(
            norm(after_layer(st, level, es), level),
            level,
            e,
        ) && !is_marker(e) {
            seq![e]
        } else {
            Seq::<Seq<u8>>::empty()
        }));
    }
}

/// Compare two byte strings.
fn bytes_eq(a: &Vec<u8>, b: &Vec<u8>) -> (r: bool)
    ensures
        r == (a@ == b@),
{
    if a.len() != b.len() {
        proof {
            assert(a@ != b@);
        }
        return false;
    }
    let mut i: usize = 0;
    while i < a.len()
        invariant
            a@.len() == b@.len(),
            0 <= i <= a@.len(),
            forall|j: int| 0 <= j < i ==> a@[j] == b@[j],
        decreases a@.len() - i,
    {
        if a[i] != b[i] {
            return false;
        }
        i = i + 1;
    }
    proof {
        assert(a@ =~= b@);
    }
    true
}

/// Whether `paths` holds `p`.
fn contains_path(paths: &Vec<Vec<u8>>, p: &Vec<u8>) -> (r: bool)
    ensures
        r == paths.deep_view().contains(p@),
{
    let mut i: usize = 0;
    while i < paths.len()
        invariant
            0 <= i <= paths@.len(),
            forall|j: int| 0 <= j < i ==> paths.deep_view()[j] != p@,
        decreases paths@.len() - i,
    {
        let hit = bytes_eq(&paths[i], p);
        proof {
            assert(paths@[i as int].deep_view() =~= paths@[i as int]@);
        }
        if hit {
            proof {
                assert(paths.deep_view()[i as int] == p@);
            }
            return true;
        }
        i = i + 1;
    }
    false
}

/// The index just past the last `/` of `p`, or 0 when there is none.
fn split_point(p: &Vec<u8>) -> (r: usize)
    ensures
        r == last_slash(p@) + 1,
{
    let mut i: usize = p.len();
    while i > 0
        invariant
            0 <= i <= p@.len(),
            forall|j: int| i <= j < p@.len() ==> p@[j] != slash(),
        decreases i,
    {
        if p[i - 1] == 47u8 {
            proof {
                lemma_last_slash_found(p@, i - 1);
            }
            return i;
        }
        i = i - 1;
    }
    proof {
        lemma_last_slash_bounds(p@);
        if last_slash(p@) >= 0 {
            assert(p@[last_slash(p@)] == slash());
        }
    }
    0
}

proof fn lemma_last_slash_found(p: Seq<u8>, i: int)
    requires
        0 <= i < p.len(),
        p[i] == slash(),
        forall|j: int| i < j < p.len() ==> p[j] != slash(),
    ensures
        last_slash(p) == i,
    decreases p.len(),
{
    if i == p.len() - 1 {
    } else {
        assert(p.last() != slash());
        assert(p.drop_last()[i] == p[i]);
        assert forall|j: int| i < j < p.drop_last().len() implies p.drop_last()[j] != slash() by {
            assert(p.drop_last()[j] == p[j]);
        }
        lemma_last_slash_found(p.drop_last(), i);
    }
}

/// The directory part of `p`.
fn parent_vec(p: &Vec<u8>) -> (r: Vec<u8>)
    ensures
        r@ == parent_of(p@),
{
    let cut = split_point(p);
    proof {
        lemma_last_slash_bounds(p@);
    }
    let stop = if cut > 0 {
        cut - 1
    } else {
        0
    };
    let mut out: Vec<u8> = Vec::new();
    let mut i: usize = 0;
    while i < stop
        invariant
            0 <= i <= stop <= p@.len(),
            out@ == p@.take(i as int),
        decreases stop - i,
    {
        out.push(p[i]);
        proof {
            assert(p@.take(i + 1) =~= p@.take(i as int) + seq![p@[i as int]]);
        }
        i = i + 1;
    }
    proof {
        if last_slash(p@) < 0 {
            assert(out@ =~= parent_of(p@));
        } else {
            assert(out@ =~= parent_of(p@));
        }
    }
    out
}

/// The name part of `p`.
pub fn basename_vec(p: &Vec<u8>) -> (r: Vec<u8>)
    ensures
        r@ == basename_of(p@),
{
    let cut = split_point(p);
    proof {
        lemma_last_slash_bounds(p@);
    }
    let mut out: Vec<u8> = Vec::new();
    let mut i: usize = cut;
    while i < p.len()
        invariant
            cut <= i <= p@.len(),
            cut == last_slash(p@) + 1,
            out@ == p@.subrange(cut as int, i as int),
        decreases p@.len() - i,
    {
        out.push(p[i]);
        proof {
            assert(p@.subrange(cut as int, i + 1) =~= p@.subrange(cut as int, i as int) + seq![
                p@[i as int],
            ]);
        }
        i = i + 1;
    }
    proof {
        assert(out@ =~= basename_of(p@));
    }
    out
}

/// `name` placed inside the directory `d`.
fn join_paths(d: &Vec<u8>, name: &Vec<u8>) -> (r: Vec<u8>)
    ensures
        r@ == join(d@, name@),
{
    let mut out: Vec<u8> = Vec::new();
    if d.len() > 0 {
        let mut i: usize = 0;
        while i < d.len()
            invariant
                0 <= i <= d@.len(),
                out@ == d@.take(i as int),
            decreases d@.len() - i,
        {
            out.push(d[i]);
            proof {
                assert(d@.take(i + 1) =~= d@.take(i as int) + seq![d@[i as int]]);
            }
            i = i + 1;
        }
        out.push(47u8);
    }
    let ghost head = out@;
    let mut i: usize = 0;
    while i < name.len()
        invariant
            0 <= i <= name@.len(),
            out@ == head + name@.take(i as int),
        decreases name@.len() - i,
    {
        out.push(name[i]);
        proof {
            assert(name@.take(i + 1) =~= name@.take(i as int) + seq![name@[i as int]]);
        }
        i = i + 1;
    }
    proof {
        assert(name@.take(name@.len() as int) =~= name@);
        if d@.len() == 0 {
            assert(out@ =~= join(d@, name@));
        } else {
            assert(d@.take(d@.len() as int) =~= d@);
            assert(out@ =~= join(d@, name@));
        }
    }
    out
}

/// The opaque marker name as bytes.
fn opq_vec() -> (r: Vec<u8>)
    ensures
        r@ == opq_marker(),
{
    let mut v: Vec<u8> = Vec::new();
    v.push(46u8);
    v.push(119u8);
    v.push(104u8);
    v.push(46u8);
    v.push(46u8);
    v.push(119u8);
    v.push(104u8);
    v.push(46u8);
    v.push(46u8);
    v.push(111u8);
    v.push(112u8);
    v.push(113u8);
    proof {
        assert(v@ =~= opq_marker());
    }
    v
}

/// The whiteout marker path that suppresses `p`.
fn mask_vec(p: &Vec<u8>) -> (r: Vec<u8>)
    ensures
        r@ == mask_of(p@),
{
    let parent = parent_vec(p);
    let base = basename_vec(p);
    let mut name: Vec<u8> = Vec::new();
    name.push(46u8);
    name.push(119u8);
    name.push(104u8);
    name.push(46u8);
    let mut i: usize = 0;
    while i < base.len()
        invariant
            0 <= i <= base@.len(),
            name@ == seq![46u8, 119u8, 104u8, 46u8] + base@.take(i as int),
        decreases base@.len() - i,
    {
        name.push(base[i]);
        proof {
            assert(base@.take(i + 1) =~= base@.take(i as int) + seq![base@[i as int]]);
        }
        i = i + 1;
    }
    proof {
        assert(base@.take(base@.len() as int) =~= base@);
        assert(name@ =~= wh_prefix() + basename_of(p@));
    }
    join_paths(&parent, &name)
}


// ------------------------------------------------------------------
// The overlay laws.
// ------------------------------------------------------------------
proof fn lemma_push_contains(s: Seq<Seq<u8>>, x: Seq<u8>, y: Seq<u8>)
    requires
        s.contains(y),
    ensures
        s.push(x).contains(y),
{
    let i = choose|i: int| 0 <= i < s.len() && s[i] == y;
    assert(s.push(x)[i] == y);
}

proof fn lemma_tail_contains(es: Seq<Seq<u8>>, x: Seq<u8>)
    requires
        es.len() > 0,
        es.drop_first().contains(x),
    ensures
        es.contains(x),
{
    let i = choose|i: int| 0 <= i < es.drop_first().len() && es.drop_first()[i] == x;
    assert(es[i + 1] == x);
}

/// Recorded paths are never dropped by a later decision.
proof fn lemma_after_skip_mono(st: Seq<Seq<Seq<u8>>>, level: int, p: Seq<u8>)
    requires
        0 <= level <= st.len(),
    ensures
        st.len() <= after_skip(st, level, p).len(),
        forall|l: int, q: Seq<u8>|
            0 <= l < st.len() && #[trigger] st[l].contains(q) ==> after_skip(
                st,
                level,
                p,
            )[l].contains(q),
{
    let st2 = norm(st, level);
    assert forall|l: int, q: Seq<u8>|
        0 <= l < st.len() && #[trigger] st[l].contains(q) implies after_skip(
        st,
        level,
        p,
    )[l].contains(q) by {
        assert(st2[l] == st[l]);
        if !early_skip(st2, level, p) && l == level {
            lemma_push_contains(st2[l], p, q);
        }
    }
}

/// Recorded paths survive a whole layer.
proof fn lemma_after_layer_mono(st: Seq<Seq<Seq<u8>>>, level: int, es: Seq<Seq<u8>>)
    requires
        0 <= level <= st.len(),
    ensures
        st.len() <= after_layer(st, level, es).len(),
        forall|l: int, q: Seq<u8>|
            0 <= l < st.len() && #[trigger] st[l].contains(q) ==> after_layer(
                st,
                level,
                es,
            )[l].contains(q),
    decreases es.len(),
{
    if es.len() > 0 {
        lemma_after_skip_mono(st, level, es[0]);
        lemma_after_skip_len(st, level, es[0]);
        lemma_after_layer_mono(after_skip(st, level, es[0]), level, es.drop_first());
    }
}

/// Whatever one decision records came from its own entry or was there.
proof fn lemma_after_skip_entries(st: Seq<Seq<Seq<u8>>>, level: int, p: Seq<u8>, l: int, q: Seq<u8>)
    requires
        0 <= level <= st.len(),
        0 <= l < after_skip(st, level, p).len(),
        after_skip(st, level, p)[l].contains(q),
    ensures
        (l < st.len() && st[l].contains(q)) || (l == level && q == p),
{
    let st2 = norm(st, level);
    if early_skip(st2, level, p) {
        if l == st.len() {
            assert(st2[l] =~= Seq::<Seq<u8>>::empty());
        }
    } else {
        if l == level {
            let row = st2[level].push(p);
            if row.contains(q) {
                let i = choose|i: int| 0 <= i < row.len() && row[i] == q;
                if i < st2[level].len() {
                    assert(st2[level][i] == q);
                    if level == st.len() {
                        assert(st2[level] =~= Seq::<Seq<u8>>::empty());
                    }
                } else {
                    assert(q == p);
                }
            }
        } else {
            if l == st.len() {
                assert(st2[l] =~= Seq::<Seq<u8>>::empty());
            }
        }
    }
}

/// Whatever one layer records at `level` came from its entries.
proof fn lemma_after_layer_entries(
    st: Seq<Seq<Seq<u8>>>,
    level: int,
    es: Seq<Seq<u8>>,
    l: int,
    q: Seq<u8>,
)
    requires
        0 <= level <= st.len(),
        0 <= l < after_layer(st, level, es).len(),
        after_layer(st, level, es)[l].contains(q),
    ensures
        (l < st.len() && st[l].contains(q)) || (l == level && es.contains(q)),
    decreases es.len(),
{
    if es.len() > 0 {
        let st1 = after_skip(st, level, es[0]);
        lemma_after_skip_len(st, level, es[0]);
        lemma_after_layer_entries(st1, level, es.drop_first(), l, q);
        if l < st1.len() && st1[l].contains(q) {
            lemma_after_skip_entries(st, level, es[0], l, q);
            if !(l < st.len() && st[l].contains(q)) {
                assert(es[0] == q);
                assert(es.contains(q));
            }
        } else {
            lemma_tail_contains(es, q);
        }
    }
}

/// After one more entry the state has a record for `level`.
proof fn lemma_after_layer_len_fixed(st: Seq<Seq<Seq<u8>>>, level: int, es: Seq<Seq<u8>>)
    requires
        0 <= level < st.len(),
    ensures
        after_layer(st, level, es).len() == st.len(),
    decreases es.len(),
{
    if es.len() > 0 {
        lemma_after_skip_len(st, level, es[0]);
        lemma_after_layer_len_fixed(after_skip(st, level, es[0]), level, es.drop_first());
    }
}

proof fn lemma_after_layer_len_exact(st: Seq<Seq<Seq<u8>>>, level: int, es: Seq<Seq<u8>>)
    requires
        level == st.len(),
        es.len() > 0,
    ensures
        after_layer(st, level, es).len() == st.len() + 1,
{
    lemma_after_skip_len(st, level, es[0]);
    lemma_after_layer_len_fixed(after_skip(st, level, es[0]), level, es.drop_first());
}

/// With no empty layer, the state holds one record per processed layer.
proof fn lemma_state_len(layers: Seq<Seq<Seq<u8>>>, k: int)
    requires
        0 <= k <= layers.len(),
        forall|j: int| 0 <= j < k ==> #[trigger] layers[j].len() > 0,
    ensures
        state_after(layers, k).len() == k,
    decreases k,
{
    if k > 0 {
        lemma_state_len(layers, k - 1);
        lemma_after_layer_len_exact(state_after(layers, k - 1), k - 1, layers[k - 1]);
    }
}

/// Every recorded path was an entry of the layer whose level holds it.
proof fn lemma_state_entries(layers: Seq<Seq<Seq<u8>>>, k: int, l: int, q: Seq<u8>)
    requires
        0 <= k <= layers.len(),
        forall|j: int| 0 <= j < k ==> #[trigger] layers[j].len() > 0,
        0 <= l < state_after(layers, k).len(),
        state_after(layers, k)[l].contains(q),
    ensures
        l < k,
        layers[l].contains(q),
    decreases k,
{
    lemma_state_len(layers, k);
    if k > 0 {
        lemma_state_len(layers, k - 1);
        lemma_after_layer_entries(state_after(layers, k - 1), k - 1, layers[k - 1], l, q);
        if l < k - 1 && state_after(layers, k - 1)[l].contains(q) {
            lemma_state_entries(layers, k - 1, l, q);
        }
    }
}

/// The early checks read levels before `level` only, so they see no
/// difference between two states that agree there.
proof fn lemma_early_skip_frame(
    sta: Seq<Seq<Seq<u8>>>,
    stb: Seq<Seq<Seq<u8>>>,
    level: int,
    x: Seq<u8>,
)
    requires
        level <= sta.len(),
        level <= stb.len(),
        forall|l: int| 0 <= l < level ==> sta[l] == stb[l],
    ensures
        early_skip(sta, level, x) == early_skip(stb, level, x),
{
    assert forall|y: Seq<u8>| #[trigger] seen_upto(sta, level - 1, y) implies seen_upto(
        stb,
        level - 1,
        y,
    ) by {
        let i = choose|i: int| 0 <= i <= level - 1 && i < sta.len() && sta[i].contains(y);
        assert(stb[i].contains(y));
    }
    assert forall|y: Seq<u8>| #[trigger] seen_upto(stb, level - 1, y) implies seen_upto(
        sta,
        level - 1,
        y,
    ) by {
        let i = choose|i: int| 0 <= i <= level - 1 && i < stb.len() && stb[i].contains(y);
        assert(sta[i].contains(y));
    }
    if early_skip(sta, level, x) && !early_skip(stb, level, x) {
        if exists|a: Seq<u8>| is_under(a, x) && seen_upto(sta, level - 1, opq_of(a)) {
            let a = choose|a: Seq<u8>| is_under(a, x) && seen_upto(sta, level - 1, opq_of(a));
            assert(seen_upto(stb, level - 1, opq_of(a)));
        }
    }
    if early_skip(stb, level, x) && !early_skip(sta, level, x) {
        if exists|a: Seq<u8>| is_under(a, x) && seen_upto(stb, level - 1, opq_of(a)) {
            let a = choose|a: Seq<u8>| is_under(a, x) && seen_upto(stb, level - 1, opq_of(a));
            assert(seen_upto(sta, level - 1, opq_of(a)));
        }
    }
}

/// An entry of the layer that is not suppressed ends up recorded.
proof fn lemma_layer_records(st: Seq<Seq<Seq<u8>>>, level: int, es: Seq<Seq<u8>>, x: Seq<u8>)
    requires
        0 <= level <= st.len(),
        es.contains(x),
        !early_skip(norm(st, level), level, x),
    ensures
        level < after_layer(st, level, es).len(),
        after_layer(st, level, es)[level].contains(x),
    decreases es.len(),
{
    let st2 = norm(st, level);
    let st1 = after_skip(st, level, es[0]);
    lemma_after_skip_len(st, level, es[0]);
    if es[0] == x {
        assert(!early_skip(st2, level, x));
        let row = st2[level].push(x);
        assert(row[row.len() - 1] == x);
        assert(st1[level].contains(x));
        lemma_after_layer_mono(st1, level, es.drop_first());
    } else {
        let i = choose|i: int| 0 <= i < es.len() && es[i] == x;
        assert(i > 0);
        assert(es.drop_first()[i - 1] == x);
        assert(es.drop_first().contains(x));
        assert(st1.len() >= level);
        assert forall|l: int| 0 <= l < level implies st2[l] == st1[l] by {}
        lemma_early_skip_frame(st2, st1, level, x);
        assert(norm(st1, level) == st1);
        lemma_layer_records(st1, level, es.drop_first(), x);
    }
}

/// A path whose suppression already holds is not emitted by a layer.
proof fn lemma_layer_no_emit(st: Seq<Seq<Seq<u8>>>, level: int, es: Seq<Seq<u8>>, x: Seq<u8>)
    requires
        0 <= level <= st.len(),
        early_skip(st, level, x),
    ensures
        !layer_emits(st, level, es).contains(x),
    decreases es.len(),
{
    if es.len() > 0 {
        let st2 = norm(st, level);
        assert forall|l: int| 0 <= l < level implies st[l] == st2[l] by {}
        lemma_early_skip_frame(st, st2, level, x);
        let st1 = after_skip(st, level, es[0]);
        lemma_after_skip_len(st, level, es[0]);
        assert forall|l: int| 0 <= l < level implies st[l] == st1[l] by {
            assert(st1[l] == st2[l]);
        }
        lemma_early_skip_frame(st, st1, level, x);
        lemma_layer_no_emit(st1, level, es.drop_first(), x);
        let head: Seq<Seq<u8>> = if !skip_spec(st2, level, es[0]) && !is_marker(es[0]) {
            seq![es[0]]
        } else {
            Seq::empty()
        };
        let whole = head + layer_emits(st1, level, es.drop_first());
        if whole.contains(x) {
            let i = choose|i: int| 0 <= i < whole.len() && whole[i] == x;
            if i < head.len() {
                assert(head[i] == es[0]);
                assert(es[0] == x);
                assert(!skip_spec(st2, level, x));
                assert(false);
            } else {
                assert(layer_emits(st1, level, es.drop_first())[i - head.len()] == x);
                assert(layer_emits(st1, level, es.drop_first()).contains(x));
                assert(false);
            }
        }
    }
}

/// Whatever a layer emits was one of its entries.
proof fn lemma_emits_subset(st: Seq<Seq<Seq<u8>>>, level: int, es: Seq<Seq<u8>>, q: Seq<u8>)
    requires
        layer_emits(st, level, es).contains(q),
    ensures
        es.contains(q),
    decreases es.len(),
{
    if es.len() > 0 {
        let st2 = norm(st, level);
        let st1 = after_skip(st, level, es[0]);
        let head: Seq<Seq<u8>> = if !skip_spec(st2, level, es[0]) && !is_marker(es[0]) {
            seq![es[0]]
        } else {
            Seq::empty()
        };
        let whole = head + layer_emits(st1, level, es.drop_first());
        let i = choose|i: int| 0 <= i < whole.len() && whole[i] == q;
        if i < head.len() {
            assert(es[0] == q);
            assert(es.contains(q));
        } else {
            assert(layer_emits(st1, level, es.drop_first())[i - head.len()] == q);
            assert(layer_emits(st1, level, es.drop_first()).contains(q));
            lemma_emits_subset(st1, level, es.drop_first(), q);
            lemma_tail_contains(es, q);
        }
    }
}

/// A record at `level` persists through all later layers.
proof fn lemma_record_persists(layers: Seq<Seq<Seq<u8>>>, i: int, m: Seq<u8>, k: int)
    requires
        0 <= i,
        i + 1 <= k <= layers.len(),
        forall|j: int| 0 <= j < layers.len() ==> #[trigger] layers[j].len() > 0,
        state_after(layers, i + 1).len() > i,
        state_after(layers, i + 1)[i].contains(m),
    ensures
        state_after(layers, k).len() > i,
        state_after(layers, k)[i].contains(m),
    decreases k - i,
{
    if k > i + 1 {
        lemma_record_persists(layers, i, m, k - 1);
        lemma_state_len(layers, k - 1);
        lemma_after_layer_mono(state_after(layers, k - 1), k - 1, layers[k - 1]);
    }
}

/// The suppression of `x` that level `i`'s record warrants keeps `x`
/// out of the output of every layer past `i`.
proof fn lemma_output_excludes(
    layers: Seq<Seq<Seq<u8>>>,
    i: int,
    x: Seq<u8>,
    witness: Seq<u8>,
    k: int,
)
    requires
        0 <= i < layers.len(),
        forall|j: int| 0 <= j < layers.len() ==> #[trigger] layers[j].len() > 0,
        state_after(layers, i + 1).len() > i,
        state_after(layers, i + 1)[i].contains(witness),
        witness == mask_of(x) || (exists|a: Seq<u8>| is_under(a, x) && witness == opq_of(a)),
        forall|j: int| 0 <= j < layers.len() && #[trigger] layers[j].contains(x) ==> j > i,
        0 <= k <= layers.len(),
    ensures
        !output_upto(layers, k).contains(x),
    decreases k,
{
    if k > 0 {
        lemma_output_excludes(layers, i, x, witness, k - 1);
        let st = state_after(layers, k - 1);
        let em = layer_emits(st, k - 1, layers[k - 1]);
        if k - 1 <= i {
            if em.contains(x) {
                lemma_emits_subset(st, k - 1, layers[k - 1], x);
                assert(layers[k - 1].contains(x));
                assert(false);
            }
        } else {
            lemma_record_persists(layers, i, witness, k - 1);
            assert(st[i].contains(witness));
            assert(seen_upto(st, k - 2, witness));
            assert(early_skip(st, k - 1, x));
            lemma_state_len(layers, k - 1);
            lemma_layer_no_emit(st, k - 1, layers[k - 1], x);
        }
        if output_upto(layers, k).contains(x) {
            let whole = output_upto(layers, k - 1) + em;
            let j = choose|j: int| 0 <= j < whole.len() && whole[j] == x;
            if j < output_upto(layers, k - 1).len() {
                assert(output_upto(layers, k - 1)[j] == x);
                assert(output_upto(layers, k - 1).contains(x));
                assert(false);
            } else {
                assert(em[j - output_upto(layers, k - 1).len()] == x);
                assert(em.contains(x));
                assert(false);
            }
        }
    }
}

/// A marker entry of layer `i` that no earlier layer suppresses is
/// recorded when its layer is processed.
proof fn lemma_marker_recorded(layers: Seq<Seq<Seq<u8>>>, i: int, m: Seq<u8>)
    requires
        0 <= i < layers.len(),
        forall|j: int| 0 <= j < layers.len() ==> #[trigger] layers[j].len() > 0,
        layers[i].contains(m),
        forall|k: int| 0 <= k < i ==> !(#[trigger] layers[k]).contains(m),
        forall|k: int, a: Seq<u8>|
            0 <= k < i && is_under(a, m) ==> !(#[trigger] layers[k].contains(opq_of(a))),
        forall|k: int| 0 <= k < i ==> !(#[trigger] layers[k]).contains(mask_of(m)),
    ensures
        state_after(layers, i + 1).len() > i,
        state_after(layers, i + 1)[i].contains(m),
{
    lemma_state_len(layers, i);
    let sti = state_after(layers, i);
    let stn = norm(sti, i);
    assert(!early_skip(stn, i, m)) by {
        if early_skip(stn, i, m) {
            if seen_upto(stn, i - 1, m) {
                let l = choose|l: int| 0 <= l <= i - 1 && l < stn.len() && stn[l].contains(m);
                assert(sti[l].contains(m));
                lemma_state_entries(layers, i, l, m);
                assert(false);
            } else if exists|a: Seq<u8>| is_under(a, m) && seen_upto(stn, i - 1, opq_of(a)) {
                let a = choose|a: Seq<u8>| is_under(a, m) && seen_upto(stn, i - 1, opq_of(a));
                let l = choose|l: int|
                    0 <= l <= i - 1 && l < stn.len() && stn[l].contains(opq_of(a));
                assert(sti[l].contains(opq_of(a)));
                lemma_state_entries(layers, i, l, opq_of(a));
                assert(layers[l].contains(opq_of(a)));
                assert(false);
            } else {
                let l = choose|l: int|
                    0 <= l <= i - 1 && l < stn.len() && stn[l].contains(mask_of(m));
                assert(sti[l].contains(mask_of(m)));
                lemma_state_entries(layers, i, l, mask_of(m));
                assert(false);
            }
        }
    }
    lemma_layer_records(sti, i, layers[i], m);
}

/// Whiteout correctness: when layer `i` lays down the whiteout marker
/// of `p`, no earlier-processed layer interferes with that marker, and
/// `p` itself is authored only by layers processed after `i`, then `p`
/// is absent from the unpacked output.
pub proof fn lemma_whiteout_correctness(layers: Seq<Seq<Seq<u8>>>, i: int, p: Seq<u8>)
    requires
        0 <= i < layers.len(),
        forall|j: int| 0 <= j < layers.len() ==> #[trigger] layers[j].len() > 0,
        layers[i].contains(mask_of(p)),
        forall|k: int| 0 <= k < i ==> !(#[trigger] layers[k]).contains(mask_of(p)),
        forall|k: int, a: Seq<u8>|
            0 <= k < i && is_under(a, mask_of(p)) ==> !(#[trigger] layers[k].contains(opq_of(a))),
        forall|k: int| 0 <= k < i ==> !(#[trigger] layers[k]).contains(mask_of(mask_of(p))),
        forall|j: int| 0 <= j < layers.len() && #[trigger] layers[j].contains(p) ==> j > i,
    ensures
        !unpack_output(layers).contains(p),
{
    lemma_marker_recorded(layers, i, mask_of(p));
    lemma_output_excludes(layers, i, p, mask_of(p), layers.len() as int);
}

/// Opaque correctness: when layer `i` lays down the opaque marker of
/// the directory `d`, no earlier-processed layer interferes with that
/// marker, and the path `q` under `d` is authored only by layers
/// processed after `i`, then `q` is absent from the unpacked output.
pub proof fn lemma_opaque_correctness(layers: Seq<Seq<Seq<u8>>>, i: int, d: Seq<u8>, q: Seq<u8>)
    requires
        0 <= i < layers.len(),
        forall|j: int| 0 <= j < layers.len() ==> #[trigger] layers[j].len() > 0,
        layers[i].contains(opq_of(d)),
        forall|k: int| 0 <= k < i ==> !(#[trigger] layers[k]).contains(opq_of(d)),
        forall|k: int, a: Seq<u8>|
            0 <= k < i && is_under(a, opq_of(d)) ==> !(#[trigger] layers[k].contains(opq_of(a))),
        forall|k: int| 0 <= k < i ==> !(#[trigger] layers[k]).contains(mask_of(opq_of(d))),
        is_under(d, q),
        forall|j: int| 0 <= j < layers.len() && #[trigger] layers[j].contains(q) ==> j > i,
    ensures
        !unpack_output(layers).contains(q),
{
    lemma_marker_recorded(layers, i, opq_of(d));
    assert(is_under(d, q) && opq_of(d) == opq_of(d));
    lemma_output_excludes(layers, i, q, opq_of(d), layers.len() as int);
}

/// One whole layer at level 0, starting from a single record `s0`:
/// everything is emitted and recorded in order.
proof fn lemma_layer0_run(s0: Seq<Seq<u8>>, es: Seq<Seq<u8>>)
    requires
        forall|j: int| 0 <= j < es.len() ==> !is_marker(#[trigger] es[j]),
    ensures
        after_layer(seq![s0], 0, es) == seq![s0 + es],
        layer_emits(seq![s0], 0, es) == es,
    decreases es.len(),
{
    let st: Seq<Seq<Seq<u8>>> = seq![s0];
    if es.len() == 0 {
        assert(s0 + es =~= s0);
        assert(after_layer(st, 0, es) =~= seq![s0 + es]);
        assert(layer_emits(st, 0, es) =~= es);
    } else {
        let e = es[0];
        assert(norm(st, 0) == st);
        assert(!early_skip(st, 0, e));
        assert(!is_marker(e));
        assert(basename_of(e) != opq_marker()) by {
            if basename_of(e) == opq_marker() {
                assert(opq_marker().take(4) =~= wh_prefix());
                assert(is_marker(e));
            }
        }
        assert(!skip_spec(norm(st, 0), 0, e));
        let st1 = after_skip(st, 0, e);
        assert(st1 =~= seq![s0.push(e)]);
        assert forall|j: int| 0 <= j < es.drop_first().len() implies !is_marker(
            #[trigger] es.drop_first()[j],
        ) by {
            assert(es.drop_first()[j] == es[j + 1]);
        }
        lemma_layer0_run(s0.push(e), es.drop_first());
        assert(s0.push(e) + es.drop_first() =~= s0 + es);
        assert(after_layer(st, 0, es) == after_layer(seq![s0.push(e)], 0, es.drop_first()));
        assert(layer_emits(st, 0, es) =~= seq![e] + es.drop_first());
        assert(seq![e] + es.drop_first() =~= es);
    }
}

/// A layer whose entries are all recorded at level 0 already emits
/// nothing and leaves level 0 unchanged.
proof fn lemma_layer_absorbed(st: Seq<Seq<Seq<u8>>>, level: int, es: Seq<Seq<u8>>)
    requires
        1 <= level <= st.len(),
        st.len() >= 1,
        forall|j: int| 0 <= j < es.len() ==> st[0].contains(#[trigger] es[j]),
    ensures
        layer_emits(st, level, es) == Seq::<Seq<u8>>::empty(),
        after_layer(st, level, es).len() >= st.len(),
        after_layer(st, level, es)[0] == st[0],
    decreases es.len(),
{
    if es.len() == 0 {
    } else {
        let e = es[0];
        let st2 = norm(st, level);
        assert(st2[0] == st[0]);
        assert(st2[0].contains(e));
        assert(seen_upto(st2, level - 1, e)) by {
            assert(0 <= 0 <= level - 1 && 0 < st2.len() && st2[0].contains(e));
        }
        assert(early_skip(st2, level, e));
        let st1 = after_skip(st, level, e);
        assert(st1 == st2);
        assert forall|j: int| 0 <= j < es.drop_first().len() implies st1[0].contains(
            #[trigger] es.drop_first()[j],
        ) by {
            assert(es.drop_first()[j] == es[j + 1]);
        }
        lemma_layer_absorbed(st1, level, es.drop_first());
        assert(layer_emits(st, level, es) =~= Seq::<Seq<u8>>::empty() + layer_emits(
            st1,
            level,
            es.drop_first(),
        ));
        assert(Seq::<Seq<u8>>::empty() + Seq::<Seq<u8>>::empty() =~= Seq::<Seq<u8>>::empty());
    }
}

proof fn lemma_identity_run(layers: Seq<Seq<Seq<u8>>>, k: int)
    requires
        1 <= k <= layers.len(),
        layers[0].len() > 0,
        forall|j: int| 0 <= j < layers.len() ==> #[trigger] layers[j] == layers[0],
        forall|j: int| 0 <= j < layers[0].len() ==> !is_marker(#[trigger] layers[0][j]),
    ensures
        output_upto(layers, k) == layers[0],
        state_after(layers, k).len() >= 1,
        forall|j: int|
            0 <= j < layers[0].len() ==> state_after(layers, k)[0].contains(
                #[trigger] layers[0][j],
            ),
    decreases k,
{
    let es = layers[0];
    assert forall|j: int| 0 <= j < layers.len() implies #[trigger] layers[j].len() > 0 by {
        assert(layers[j] == layers[0]);
    }
    if k == 1 {
        // The first layer: everything is fresh, everything is emitted.
        let e = es[0];
        let empty_st: Seq<Seq<Seq<u8>>> = Seq::empty();
        assert(state_after(layers, 0) == empty_st);
        assert(norm(empty_st, 0) =~= seq![Seq::<Seq<u8>>::empty()]);
        assert(!early_skip(norm(empty_st, 0), 0, e));
        assert(!is_marker(e));
        assert(basename_of(e) != opq_marker()) by {
            if basename_of(e) == opq_marker() {
                assert(opq_marker().take(4) =~= wh_prefix());
                assert(is_marker(e));
            }
        }
        let st1 = after_skip(empty_st, 0, e);
        assert(st1 =~= seq![Seq::<Seq<u8>>::empty().push(e)]);
        assert(st1 =~= seq![seq![e]]);
        assert forall|j: int| 0 <= j < es.drop_first().len() implies !is_marker(
            #[trigger] es.drop_first()[j],
        ) by {
            assert(es.drop_first()[j] == es[j + 1]);
        }
        lemma_layer0_run(seq![e], es.drop_first());
        assert(seq![e] + es.drop_first() =~= es);
        assert(state_after(layers, 1) == after_layer(empty_st, 0, es));
        assert(after_layer(empty_st, 0, es) == after_layer(st1, 0, es.drop_first()));
        assert(state_after(layers, 1) == seq![es]);
        assert(layer_emits(empty_st, 0, es) =~= seq![e] + es.drop_first());
        assert(output_upto(layers, 0) == Seq::<Seq<u8>>::empty());
        assert(output_upto(layers, 1) =~= Seq::<Seq<u8>>::empty() + layer_emits(empty_st, 0, es));
        assert(output_upto(layers, 1) =~= es);
        assert forall|j: int| 0 <= j < es.len() implies state_after(layers, 1)[0].contains(
            #[trigger] es[j],
        ) by {
            assert(state_after(layers, 1)[0] == es);
        }
    } else {
        lemma_identity_run(layers, k - 1);
        let st = state_after(layers, k - 1);
        lemma_state_len(layers, k - 1);
        assert(st.len() == k - 1);
        assert(layers[k - 1] == es);
        lemma_layer_absorbed(st, k - 1, es);
        assert(output_upto(layers, k) =~= output_upto(layers, k - 1) + Seq::<Seq<u8>>::empty());
        assert(output_upto(layers, k) =~= layers[0]);
        let stk = state_after(layers, k);
        assert(stk == after_layer(st, k - 1, es));
        assert(stk[0] == st[0]);
    }
}

/// Layer commutativity under identity: a stack of identical
/// marker-free layers unpacks to that one layer's entries, however
/// many copies the stack holds.
pub proof fn lemma_identity_stack(layers: Seq<Seq<Seq<u8>>>)
    requires
        layers.len() >= 1,
        layers[0].len() > 0,
        forall|j: int| 0 <= j < layers.len() ==> #[trigger] layers[j] == layers[0],
        forall|j: int| 0 <= j < layers[0].len() ==> !is_marker(#[trigger] layers[0][j]),
    ensures
        unpack_output(layers) == layers[0],
{
    lemma_identity_run(layers, layers.len() as int);
}

} // verus!

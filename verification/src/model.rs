//! The model type: canonical probability tables, the automaton tables, and
//! the optional active override installed by `set_langs`.

use vstd::prelude::*;
use std::collections::HashMap;
use crate::decode::lemma_read_strings_len;
use crate::decode::read_classes;
use crate::decode::read_outputs;
use crate::decode::read_ptc_rows;
use crate::decode::read_u16_vec;
use crate::decode::read_u32;
use crate::decode::read_u32_vec;
use crate::decode::spec_parse;
use crate::decode::DecodeError;
use crate::tokenize::count_of;
use crate::tokenize::counter;
use crate::tokenize::lemma_walk_take_step;
use crate::tokenize::sat16;
use crate::tokenize::spec_emit;
use crate::tokenize::spec_emitted;
use crate::tokenize::spec_feature_vector;
use crate::tokenize::spec_state_after;
use crate::tokenize::spec_step;

verus! {

broadcast use vstd::std_specs::hash::group_hash_axioms;

/// One set of probability tables: the ordered class list, the
/// per-feature-per-class log-likelihood table `nb_ptc` (rows = features,
/// columns = classes) and the per-class log-prior vector `nb_pc`.
/// Every table cell is the IEEE-754 bit pattern of a 32-bit float.
#[derive(Debug)]
pub struct ModelData {
    pub nb_classes: Vec<String>,
    pub nb_ptc: Vec<Vec<u32>>,
    pub nb_pc: Vec<u32>,
}

/// Mathematical content of a `ModelData`.
#[verifier::ext_equal]
pub ghost struct DataView {
    pub classes: Seq<Seq<char>>,
    pub ptc: Seq<Seq<u32>>,
    pub pc: Seq<u32>,
}

impl View for ModelData {
    type V = DataView;

    open spec fn view(&self) -> DataView {
        DataView {
            classes: self.nb_classes.deep_view(),
            ptc: self.nb_ptc.deep_view(),
            pc: self.nb_pc@,
        }
    }
}

impl DataView {
    /// The tables agree on the number of classes: one prior and one
    /// likelihood column per class, in every feature row.
    pub open spec fn wf(self) -> bool {
        &&& self.pc.len() == self.classes.len()
        &&& forall|i: int|
            0 <= i < self.ptc.len() ==> (#[trigger] self.ptc[i]).len() == self.classes.len()
    }
}

/// Errors of `set_langs`.
#[derive(Debug)]
pub enum Error {
    UnknownLanguageCode(String),
    NoLanguage,
}

/// True when `x` occurs in `xs`.
pub open spec fn seq_contains_class(xs: Seq<Seq<char>>, x: Seq<char>) -> bool {
    exists|i: int| 0 <= i < xs.len() && xs[i] == x
}

/// True when all entries are one and the same code: together with
/// emptiness this is "fewer than two distinct codes".
pub open spec fn spec_all_same(langs: Seq<Seq<char>>) -> bool {
    forall|i: int| 0 <= i < langs.len() ==> #[trigger] langs[i] == langs[0]
}

/// The first requested code that is no canonical class, scanning in
/// request order.
pub open spec fn spec_first_unknown(classes: Seq<Seq<char>>, langs: Seq<Seq<char>>) -> Option<
    Seq<char>,
>
    decreases langs.len(),
{
    if langs.len() == 0 {
        None
    } else if !seq_contains_class(classes, langs.first()) {
        Some(langs.first())
    } else {
        spec_first_unknown(classes, langs.drop_first())
    }
}

/// The entries of `s` whose mask slot is set, in order.
pub open spec fn mask_filter<T>(s: Seq<T>, keep: Seq<bool>) -> Seq<T>
    recommends
        s.len() == keep.len(),
    decreases s.len(),
{
    if s.len() == 0 {
        Seq::empty()
    } else {
        mask_filter(s.drop_last(), keep) + (if 0 <= s.len() - 1 < keep.len() && keep[s.len()
            - 1] {
            seq![s.last()]
        } else {
            Seq::empty()
        })
    }
}

/// The retention mask over the canonical class list: true where the class
/// is among the requested codes.
pub open spec fn spec_mask(classes: Seq<Seq<char>>, langs: Seq<Seq<char>>) -> Seq<bool> {
    Seq::new(classes.len(), |i: int| seq_contains_class(langs, classes[i]))
}

/// The tables filtered to the masked classes: class list and prior vector
/// lose the dropped columns, every likelihood row loses the same columns,
/// and the row count is unchanged.
pub open spec fn spec_restrict(d: DataView, keep: Seq<bool>) -> DataView {
    DataView {
        classes: mask_filter(d.classes, keep),
        ptc: Seq::new(d.ptc.len(), |i: int| mask_filter(d.ptc[i], keep)),
        pc: mask_filter(d.pc, keep),
    }
}

/// `m` with its active override replaced.
pub open spec fn with_active(m: ModelView, a: Option<DataView>) -> ModelView {
    ModelView {
        tk_output: m.tk_output,
        numfeats: m.numfeats,
        tk_nextmove: m.tk_nextmove,
        norm_probs: m.norm_probs,
        canon: m.canon,
        active: a,
    }
}

/// Filtering one element more keeps it exactly when its mask slot is set.
pub proof fn lemma_mask_filter_take_step<T>(s: Seq<T>, keep: Seq<bool>, i: int)
    requires
        0 <= i < s.len(),
        i < keep.len(),
    ensures
        mask_filter(s.take(i + 1), keep) == mask_filter(s.take(i), keep) + (if keep[i] {
            seq![s[i]]
        } else {
            Seq::empty()
        }),
{
    assert(s.take(i + 1).drop_last() =~= s.take(i));
    assert(s.take(i + 1).last() == s[i]);
}

/// Whether position `i` of a mask is present and set.
pub open spec fn mask_at(keep: Seq<bool>, i: int) -> bool {
    0 <= i < keep.len() && keep[i]
}

/// Filtering reads only the mask slots below the sequence's length.
pub proof fn lemma_mask_filter_prefix<T>(s: Seq<T>, k1: Seq<bool>, k2: Seq<bool>)
    requires
        forall|i: int| 0 <= i < s.len() ==> mask_at(k1, i) == #[trigger] mask_at(k2, i),
    ensures
        mask_filter(s, k1) == mask_filter(s, k2),
    decreases s.len(),
{
    if s.len() > 0 {
        assert(mask_at(k1, s.len() - 1) == mask_at(k2, s.len() - 1));
        lemma_mask_filter_prefix(s.drop_last(), k1, k2);
    }
}

/// Law (candidate set): the class list of a successful restriction holds
/// exactly those canonical classes that were requested — each ranked
/// entry is one of the requested classes, and every requested class that
/// exists canonically is ranked — in canonical order.
pub proof fn lemma_restrict_membership(classes: Seq<Seq<char>>, langs: Seq<Seq<char>>, x: Seq<char>)
    ensures
        seq_contains_class(mask_filter(classes, spec_mask(classes, langs)), x) <==> (
        seq_contains_class(classes, x) && seq_contains_class(langs, x)),
    decreases classes.len(),
{
    let keep = spec_mask(classes, langs);
    if classes.len() > 0 {
        let s = classes.drop_last();
        let keep2 = spec_mask(s, langs);
        lemma_mask_filter_prefix(s, keep, keep2);
        lemma_restrict_membership(s, langs, x);
        let f = mask_filter(classes, keep);
        let fs = mask_filter(s, keep2);
        let last = classes.last();
        assert(f == fs + (if keep[classes.len() - 1] {
            seq![last]
        } else {
            Seq::<Seq<char>>::empty()
        }));
        if seq_contains_class(f, x) {
            let i = choose|i: int| 0 <= i < f.len() && f[i] == x;
            if i < fs.len() {
                assert(fs[i] == x);
                assert(seq_contains_class(fs, x));
            } else {
                assert(keep[classes.len() - 1] && x == last);
                assert(classes[classes.len() - 1] == x);
            }
        }
        if seq_contains_class(fs, x) {
            let i = choose|i: int| 0 <= i < fs.len() && fs[i] == x;
            assert(f[i] == x);
        }
        if seq_contains_class(classes, x) && seq_contains_class(langs, x) {
            let j = choose|j: int| 0 <= j < classes.len() && classes[j] == x;
            if j < classes.len() - 1 {
                assert(s[j] == x);
                assert(seq_contains_class(s, x));
            } else {
                assert(keep[classes.len() - 1]);
                assert(f[fs.len() as int] == x);
            }
        }
    }
}

/// The positions of the set mask slots, in ascending order.
pub open spec fn kept_indices(keep: Seq<bool>) -> Seq<int>
    decreases keep.len(),
{
    if keep.len() == 0 {
        Seq::empty()
    } else {
        kept_indices(keep.drop_last()) + (if keep.last() {
            seq![keep.len() - 1]
        } else {
            Seq::empty()
        })
    }
}

/// Law (columns correspond): filtering a sequence of the mask's length
/// picks exactly the entries at the mask's kept indices, in ascending
/// order. The class list, the prior vector and every likelihood row are
/// filtered with one mask, so position `j` of each comes from one and the
/// same canonical class index: restriction changes no class's scores,
/// only the candidate set.
pub proof fn lemma_mask_filter_indexing<T>(s: Seq<T>, keep: Seq<bool>)
    requires
        s.len() == keep.len(),
    ensures
        mask_filter(s, keep).len() == kept_indices(keep).len(),
        forall|j: int|
            0 <= j < kept_indices(keep).len() ==> 0 <= #[trigger] kept_indices(keep)[j] < s.len()
                && mask_filter(s, keep)[j] == s[kept_indices(keep)[j]],
    decreases s.len(),
{
    if s.len() > 0 {
        lemma_mask_filter_indexing(s.drop_last(), keep.drop_last());
        lemma_mask_filter_prefix(s.drop_last(), keep, keep.drop_last());
    }
}

/// Sequences of equal length keep equally many entries under one mask.
pub proof fn lemma_mask_filter_len_eq<A, B>(s1: Seq<A>, s2: Seq<B>, keep: Seq<bool>)
    requires
        s1.len() == s2.len(),
    ensures
        mask_filter(s1, keep).len() == mask_filter(s2, keep).len(),
    decreases s1.len(),
{
    if s1.len() > 0 {
        lemma_mask_filter_len_eq(s1.drop_last(), s2.drop_last(), keep);
    }
}

/// True when `s` occurs in `v`.
pub fn vec_contains_string(v: &Vec<String>, s: &String) -> (r: bool)
    ensures
        r == seq_contains_class(v.deep_view(), s@),
{
    let mut i: usize = 0;
    while i < v.len()
        invariant
            i <= v@.len(),
            forall|j: int| 0 <= j < i ==> v.deep_view()[j] != s@,
        decreases v@.len() - i,
    {
        if v[i] == *s {
            proof {
                assert(v.deep_view()[i as int] == s@);
            }
            return true;
        }
        i = i + 1;
    }
    false
}

/// A loaded classifier model.
#[derive(Debug)]
pub struct Model {
    /// Feature emission table: automaton state -> feature indices fired on
    /// entering that state. Absent state = empty emission.
    pub(crate) tk_output: HashMap<u16, Vec<i32>>,
    /// Number of features; the length of every feature vector.
    pub(crate) nb_numfeats: usize,
    /// Flattened transition table, indexed as `state * 256 + symbol`.
    pub(crate) tk_nextmove: Vec<u16>,
    /// Whether raw scores are to be normalized. The transform itself is an
    /// unresolved requirement of the design; it stays disabled, and scoring
    /// passes raw scores through unchanged.
    pub(crate) norm_probs: bool,
    /// Canonical tables, fixed at load time.
    pub(crate) data: ModelData,
    /// Active override installed by a successful restriction.
    pub(crate) used_data: Option<ModelData>,
}

/// The emission table as a map to plain sequences.
pub open spec fn output_view(m: Map<u16, Vec<i32>>) -> Map<u16, Seq<i32>> {
    m.map_values(|v: Vec<i32>| v@)
}

/// Mathematical content of a `Model`.
#[verifier::ext_equal]
pub ghost struct ModelView {
    pub tk_output: Map<u16, Seq<i32>>,
    pub numfeats: nat,
    pub tk_nextmove: Seq<u16>,
    pub norm_probs: bool,
    pub canon: DataView,
    pub active: Option<DataView>,
}

impl View for Model {
    type V = ModelView;

    closed spec fn view(&self) -> ModelView {
        ModelView {
            tk_output: output_view(self.tk_output@),
            numfeats: self.nb_numfeats as nat,
            tk_nextmove: self.tk_nextmove@,
            norm_probs: self.norm_probs,
            canon: self.data@,
            active: match self.used_data {
                Some(d) => Some(d@),
                None => None,
            },
        }
    }
}

impl ModelView {
    /// The tables scoring currently reads: the override if one is
    /// installed, else the canonical tables.
    pub open spec fn active_data(self) -> DataView {
        match self.active {
            Some(d) => d,
            None => self.canon,
        }
    }

    /// Well-formedness: both table sets are internally consistent and have
    /// one likelihood row per feature, and normalization is disabled.
    pub open spec fn wf(self) -> bool {
        &&& self.canon.wf()
        &&& self.canon.ptc.len() == self.numfeats
        &&& match self.active {
            Some(d) => d.wf() && d.ptc.len() == self.numfeats,
            None => true,
        }
        &&& !self.norm_probs
    }
}

impl Model {
    /// The tables currently in effect for scoring.
    pub fn data(&self) -> (d: &ModelData)
        ensures
            d@ == self@.active_data(),
    {
        if let Some(data) = &self.used_data {
            data
        } else {
            &self.data
        }
    }

    /// The probability normalizer applied to raw scores before selection.
    /// The normalizing transform itself is an unresolved requirement of
    /// the design; it stays disabled (`norm_probs` is never set), and
    /// while disabled this step is a strict identity on the scores.
    pub fn apply_norm_probs(&self, pd: Vec<u32>) -> (r: Vec<u32>)
        ensures
            r == pd,
    {
        pd
    }

    /// Number of features; every feature vector has this length.
    pub fn num_feats(&self) -> (n: usize)
        ensures
            n == self@.numfeats,
    {
        self.nb_numfeats
    }

    /// The flattened transition table, indexed as `state * 256 + symbol`.
    pub fn transitions(&self) -> (t: &Vec<u16>)
        ensures
            t@ == self@.tk_nextmove,
    {
        &self.tk_nextmove
    }

    /// The feature indices fired on entering `state`; empty for a state
    /// with no entry in the emission table.
    pub fn emissions(&self, state: u16) -> (out: Vec<i32>)
        ensures
            out@ == spec_emit(self@.tk_output, state),
    {
        let mut out: Vec<i32> = Vec::new();
        match self.tk_output.get(&state) {
            Some(v) => {
                let mut k: usize = 0;
                while k < v.len()
                    invariant
                        k <= v@.len(),
                        out@ == v@.take(k as int),
                    decreases v@.len() - k,
                {
                    out.push(v[k]);
                    k = k + 1;
                }
                proof {
                    assert(v@.take(v@.len() as int) =~= v@);
                }
            },
            None => {
                proof {
                    assert(out@ =~= Seq::<i32>::empty());
                }
            },
        }
        out
    }

    /// The feature vector of `text`: one count per feature, produced by
    /// the automaton walk. Fired indices outside the feature range are
    /// dropped; counts saturate at `u16::MAX`.
    #[verifier::loop_isolation(false)]
    #[verifier::rlimit(60)]
    pub fn instance2fv(&self, text: &Vec<char>) -> (fv: Vec<u16>)
        ensures
            fv@ == spec_feature_vector(self@.tk_nextmove, self@.tk_output, self@.numfeats, text@),
    {
        let ghost nm = self@.tk_nextmove;
        let ghost om = self@.tk_output;
        let mut state: u16 = 0;
        let mut emitted: Vec<i32> = Vec::new();
        let mut i: usize = 0;
        while i < text.len()
            invariant
                i <= text@.len(),
                state == spec_state_after(nm, text@.take(i as int)),
                emitted@ == spec_emitted(nm, om, text@.take(i as int)),
            decreases text@.len() - i,
        {
            let c: char = text[i];
            proof {
                vstd::utf8::char_is_scalar(c);
            }
            let code: usize = (c as u32) as usize;
            let idx: usize = (state as usize) * 256 + code;
            let next: u16 = if idx < self.tk_nextmove.len() {
                self.tk_nextmove[idx]
            } else {
                0
            };
            proof {
                assert(next == spec_step(nm, state, c));
            }
            let ghost emitted_before = emitted@;
            match self.tk_output.get(&next) {
                Some(v) => {
                    let mut k: usize = 0;
                    while k < v.len()
                        invariant
                            k <= v@.len(),
                            emitted@ == emitted_before + v@.take(k as int),
                        decreases v@.len() - k,
                    {
                        emitted.push(v[k]);
                        k = k + 1;
                    }
                    proof {
                        assert(v@.take(v@.len() as int) =~= v@);
                        assert(emitted@ == emitted_before + spec_emit(om, next));
                    }
                },
                None => {
                    proof {
                        assert(spec_emit(om, next) =~= Seq::<i32>::empty());
                        assert(emitted@ =~= emitted_before + spec_emit(om, next));
                    }
                },
            }
            state = next;
            i = i + 1;
            proof {
                lemma_walk_take_step(nm, om, text@, i - 1);
            }
        }
        proof {
            assert(text@.take(text@.len() as int) =~= text@);
        }
        let ghost em = spec_emitted(nm, om, text@);
        let counts = counter(&emitted);
        let mut fv: Vec<u16> = Vec::new();
        let n = self.nb_numfeats;
        let mut j: usize = 0;
        while j < n
            invariant
                j <= n,
                fv@.len() == j,
                forall|jj: int|
                    0 <= jj < j ==> fv@[jj] == (if jj <= 0x7fff_ffff {
                        sat16(count_of(em, jj as i32))
                    } else {
                        0u16
                    }),
            decreases n - j,
        {
            let cell: u16 = if j <= 0x7fff_ffff {
                match counts.get(&(#[verifier::truncate] (j as i32))) {
                    Some(c) => *c,
                    None => 0,
                }
            } else {
                0
            };
            fv.push(cell);
            j = j + 1;
        }
        proof {
            assert(fv@ =~= spec_feature_vector(nm, om, self@.numfeats, text@));
        }
        fv
    }

    /// Restrict scoring to a chosen set of classes, or clear the
    /// restriction. With no set, the canonical tables become active again.
    /// A set naming fewer than two distinct codes is rejected with
    /// `NoLanguage`; a set naming a code that is no canonical class is
    /// rejected with `UnknownLanguageCode` carrying the first such code.
    /// A rejected call leaves the model unchanged. On success the active
    /// override becomes the canonical tables filtered to the requested
    /// classes, in canonical order; the automaton and the canonical tables
    /// themselves are untouched.
    #[verifier::loop_isolation(false)]
    pub fn set_langs(&mut self, langs: Option<Vec<String>>) -> (r: Result<(), Error>)
        requires
            old(self)@.wf(),
        ensures
            final(self)@.wf(),
            langs is None ==> r is Ok && final(self)@ == with_active(old(self)@, None),
            langs matches Some(ls) ==> {
                let lv = ls.deep_view();
                let cs = old(self)@.canon.classes;
                &&& (lv.len() == 0 || spec_all_same(lv)) ==> (r matches Err(e) && e is NoLanguage
                    && final(self)@ == old(self)@)
                &&& (lv.len() > 0 && !spec_all_same(lv)) ==> (spec_first_unknown(cs, lv)
                    matches Some(u) ==> (r matches Err(e) && (e matches Error::UnknownLanguageCode(
                    c,
                ) && c@ == u) && final(self)@ == old(self)@))
                &&& (lv.len() > 0 && !spec_all_same(lv) && spec_first_unknown(cs, lv) is None)
                    ==> r is Ok && final(self)@ == with_active(
                    old(self)@,
                    Some(spec_restrict(old(self)@.canon, spec_mask(cs, lv))),
                )
            },
    {
        let ls = match langs {
            Some(l) => l,
            None => {
                self.used_data = None;
                proof {
                    assert(self@ =~= with_active(old(self)@, None));
                }
                return Ok(());
            },
        };
        let ghost lv = ls.deep_view();
        let ghost cs = self@.canon.classes;
        if ls.len() == 0 {
            return Err(Error::NoLanguage);
        }
        let mut all_same: bool = true;
        let mut i: usize = 1;
        while i < ls.len()
            invariant
                1 <= i <= ls@.len(),
                all_same == (forall|j: int| 0 <= j < i ==> #[trigger] lv[j] == lv[0]),
            decreases ls@.len() - i,
        {
            proof {
                assert(lv[i as int] == ls@[i as int]@);
                assert(lv[0] == ls@[0]@);
            }
            if !(ls[i] == ls[0]) {
                all_same = false;
            }
            i = i + 1;
        }
        if all_same {
            return Err(Error::NoLanguage);
        }
        proof {
            assert(lv.skip(0) =~= lv);
        }
        let mut i: usize = 0;
        while i < ls.len()
            invariant
                i <= ls@.len(),
                spec_first_unknown(cs, lv) == spec_first_unknown(cs, lv.skip(i as int)),
            decreases ls@.len() - i,
        {
            if !vec_contains_string(&self.data.nb_classes, &ls[i]) {
                proof {
                    assert(lv.skip(i as int).first() == lv[i as int]);
                    assert(spec_first_unknown(cs, lv) == Some(lv[i as int]));
                }
                return Err(Error::UnknownLanguageCode(ls[i].clone()));
            }
            proof {
                assert(lv.skip(i as int).first() == lv[i as int]);
                assert(lv.skip(i as int).drop_first() =~= lv.skip((i + 1) as int));
            }
            i = i + 1;
        }
        proof {
            assert(lv.skip(lv.len() as int) =~= Seq::<Seq<char>>::empty());
            assert(spec_first_unknown(cs, lv) is None);
        }
        let nclasses = self.data.nb_classes.len();
        let mut mask: Vec<bool> = Vec::new();
        let mut i: usize = 0;
        while i < nclasses
            invariant
                i <= nclasses,
                mask@.len() == i,
                forall|j: int| 0 <= j < i ==> mask@[j] == seq_contains_class(lv, cs[j]),
            decreases nclasses - i,
        {
            mask.push(vec_contains_string(&ls, &self.data.nb_classes[i]));
            i = i + 1;
        }
        proof {
            assert(mask@ =~= spec_mask(cs, lv));
        }
        let mut nb_classes: Vec<String> = Vec::new();
        let mut i: usize = 0;
        while i < nclasses
            invariant
                i <= nclasses,
                nb_classes.deep_view() == mask_filter(cs.take(i as int), mask@),
            decreases nclasses - i,
        {
            let ghost acc = nb_classes.deep_view();
            if mask[i] {
                nb_classes.push(self.data.nb_classes[i].clone());
                proof {
                    assert(nb_classes.deep_view() =~= acc + seq![cs[i as int]]);
                }
            } else {
                proof {
                    assert(nb_classes.deep_view() =~= acc + Seq::<Seq<char>>::empty());
                }
            }
            proof {
                lemma_mask_filter_take_step(cs, mask@, i as int);
            }
            i = i + 1;
        }
        let npc = self.data.nb_pc.len();
        let mut nb_pc: Vec<u32> = Vec::new();
        let mut i: usize = 0;
        while i < npc
            invariant
                i <= npc,
                nb_pc@ == mask_filter(self@.canon.pc.take(i as int), mask@),
            decreases npc - i,
        {
            let ghost acc = nb_pc@;
            if mask[i] {
                nb_pc.push(self.data.nb_pc[i]);
                proof {
                    assert(nb_pc@ =~= acc + seq![self@.canon.pc[i as int]]);
                }
            } else {
                proof {
                    assert(nb_pc@ =~= acc + Seq::<u32>::empty());
                }
            }
            proof {
                lemma_mask_filter_take_step(self@.canon.pc, mask@, i as int);
            }
            i = i + 1;
        }
        let nrows = self.data.nb_ptc.len();
        let mut nb_ptc: Vec<Vec<u32>> = Vec::new();
        let mut ri: usize = 0;
        while ri < nrows
            invariant
                ri <= nrows,
                nb_ptc.deep_view().len() == ri,
                forall|rr: int|
                    0 <= rr < ri ==> nb_ptc.deep_view()[rr] == mask_filter(
                        self@.canon.ptc[rr],
                        mask@,
                    ),
            decreases nrows - ri,
        {
            let row = &self.data.nb_ptc[ri];
            let rlen = row.len();
            proof {
                assert(self.data.nb_ptc.deep_view()[ri as int] =~= row@);
                assert(self@.canon.ptc[ri as int].len() == self@.canon.classes.len());
                assert(mask@.len() == self@.canon.classes.len());
                assert(row@.len() == mask@.len());
            }
            let mut newrow: Vec<u32> = Vec::new();
            let mut i: usize = 0;
            while i < rlen
                invariant
                    i <= rlen,
                    rlen == row@.len(),
                    rlen == mask@.len(),
                    newrow@ == mask_filter(row@.take(i as int), mask@),
                decreases rlen - i,
            {
                let ghost acc = newrow@;
                if i < mask.len() && mask[i] {
                    newrow.push(row[i]);
                    proof {
                        assert(newrow@ =~= acc + seq![row@[i as int]]);
                    }
                } else {
                    proof {
                        assert(newrow@ =~= acc + Seq::<u32>::empty());
                    }
                }
                proof {
                    lemma_mask_filter_take_step(row@, mask@, i as int);
                }
                i = i + 1;
            }
            proof {
                assert(row@.take(row@.len() as int) =~= row@);
                assert(row@ == self@.canon.ptc[ri as int]);
            }
            let ghost dv_before = nb_ptc.deep_view();
            let ghost nr = newrow@;
            nb_ptc.push(newrow);
            proof {
                assert(nb_ptc.deep_view() =~~= dv_before + seq![nr]);
            }
            ri = ri + 1;
        }
        proof {
            assert(cs.take(cs.len() as int) =~= cs);
            assert(self@.canon.pc.take(self@.canon.pc.len() as int) =~= self@.canon.pc);
        }
        self.used_data = Some(ModelData { nb_classes, nb_ptc, nb_pc });
        proof {
            let keep = spec_mask(cs, lv);
            assert(self@.active matches Some(a) && a.classes =~= mask_filter(cs, keep));
            assert(self@.active matches Some(a) && a.pc =~= mask_filter(old(self)@.canon.pc, keep));
            assert(self@.active matches Some(a) && a.ptc =~= Seq::new(
                old(self)@.canon.ptc.len(),
                |i: int| mask_filter(old(self)@.canon.ptc[i], keep),
            ));
            assert(self@ =~= with_active(
                old(self)@,
                Some(spec_restrict(old(self)@.canon, keep)),
            ));
            lemma_mask_filter_len_eq(old(self)@.canon.pc, cs, keep);
            assert forall|i: int| 0 <= i < old(self)@.canon.ptc.len() implies (#[trigger] mask_filter(
                old(self)@.canon.ptc[i],
                keep,
            )).len() == mask_filter(cs, keep).len() by {
                lemma_mask_filter_len_eq(old(self)@.canon.ptc[i], cs, keep);
            }
        }
        Ok(())
    }

    /// Decode a model from its persisted byte form. The blob must parse
    /// exactly: any truncation, malformed class name, oversized state key,
    /// dimension disagreement, or trailing byte is an error and no model
    /// is returned.
    #[verifier::rlimit(60)]
    pub fn load(bytes: &Vec<u8>) -> (r: Result<Model, DecodeError>)
        ensures
            match spec_parse(bytes@) {
                Ok(mv) => r matches Ok(m) && m@ == mv && m@.wf(),
                Err(e) => r matches Err(a) && a == e,
            },
    {
        let mut pos: usize = 0;
        let rows32 = match read_u32(bytes, &mut pos) {
            Ok(v) => v,
            Err(e) => {
                return Err(e);
            },
        };
        let cols32 = match read_u32(bytes, &mut pos) {
            Ok(v) => v,
            Err(e) => {
                return Err(e);
            },
        };
        let nb_ptc = match read_ptc_rows(bytes, &mut pos, rows32, cols32) {
            Ok(v) => v,
            Err(e) => {
                return Err(e);
            },
        };
        let pc_len32 = match read_u32(bytes, &mut pos) {
            Ok(v) => v,
            Err(e) => {
                return Err(e);
            },
        };
        let nb_pc = match read_u32_vec(bytes, &mut pos, pc_len32 as usize) {
            Ok(v) => v,
            Err(e) => {
                return Err(e);
            },
        };
        let tm_len32 = match read_u32(bytes, &mut pos) {
            Ok(v) => v,
            Err(e) => {
                return Err(e);
            },
        };
        let tk_nextmove = match read_u16_vec(bytes, &mut pos, tm_len32 as usize) {
            Ok(v) => v,
            Err(e) => {
                return Err(e);
            },
        };
        let n_classes32 = match read_u32(bytes, &mut pos) {
            Ok(v) => v,
            Err(e) => {
                return Err(e);
            },
        };
        let ghost p8 = pos as int;
        let nb_classes = match read_classes(bytes, &mut pos, n_classes32 as usize) {
            Ok(v) => v,
            Err(e) => {
                return Err(e);
            },
        };
        let n_out32 = match read_u32(bytes, &mut pos) {
            Ok(v) => v,
            Err(e) => {
                return Err(e);
            },
        };
        let tk_output = match read_outputs(bytes, &mut pos, n_out32 as usize) {
            Ok(v) => v,
            Err(e) => {
                return Err(e);
            },
        };
        if pc_len32 == 0 || cols32 != pc_len32 || n_classes32 != pc_len32 {
            return Err(DecodeError::BadDimensions);
        }
        if pos != bytes.len() {
            return Err(DecodeError::TrailingBytes);
        }
        let m = Model {
            tk_output,
            nb_numfeats: rows32 as usize,
            tk_nextmove,
            norm_probs: false,
            data: ModelData { nb_classes, nb_ptc, nb_pc },
            used_data: None,
        };
        proof {
            lemma_read_strings_len(bytes@, p8, n_classes32 as nat);
            let mv = spec_parse(bytes@)->Ok_0;
            assert(m@ =~~= mv);
            assert(m@.wf());
        }
        Ok(m)
    }
}

} // verus!

//! Lexical path normalization: paths are decomposed into components
//! (root marker, current-dir marker, parent-dir marker, named segments),
//! reduced purely syntactically, and rendered back to a string. The
//! reduction never consults any directory tree.

use vstd::prelude::*;

verus! {

/// A path component at the specification level.
pub enum CompV {
    /// The leading `/` of an absolute path.
    Root,
    /// A literal `.` kept only at the very start of a relative path.
    Cur,
    /// A `..` segment.
    Parent,
    /// A named segment.
    Name(Seq<char>),
}

/// A path component, as produced by [`components`].
pub enum Component {
    RootDir,
    CurDir,
    ParentDir,
    Normal(String),
}

impl View for Component {
    type V = CompV;

    open spec fn view(&self) -> CompV {
        match self {
            Component::RootDir => CompV::Root,
            Component::CurDir => CompV::Cur,
            Component::ParentDir => CompV::Parent,
            Component::Normal(s) => CompV::Name(s@),
        }
    }
}

pub open spec fn sep() -> char {
    '/'
}

pub open spec fn cur_seg() -> Seq<char> {
    seq!['.']
}

pub open spec fn parent_seg() -> Seq<char> {
    seq!['.', '.']
}

/// Index of the first separator in `s`, or `s.len()` if there is none.
pub open spec fn first_sep(s: Seq<char>) -> int
    decreases s.len(),
{
    if s.len() == 0 {
        0
    } else if s[0] == sep() {
        0
    } else {
        1 + first_sep(s.drop_first())
    }
}

/// `first_sep` points into `s` (or just past it), at a separator if any
/// separator occurs, and nothing before it is a separator.
pub proof fn lemma_first_sep(s: Seq<char>)
    ensures
        0 <= first_sep(s) <= s.len(),
        first_sep(s) < s.len() ==> s[first_sep(s)] == sep(),
        forall|j: int| 0 <= j < first_sep(s) ==> s[j] != sep(),
    decreases s.len(),
{
    if s.len() > 0 && s[0] != sep() {
        lemma_first_sep(s.drop_first());
        assert forall|j: int| 0 <= j < first_sep(s) implies s[j] != sep() by {
            if j > 0 {
                assert(s[j] == s.drop_first()[j - 1]);
            }
        }
    }
}

/// Splits `s` on the separator. Every separator ends a segment, so adjacent
/// separators produce empty segments; the segments never contain a separator.
pub open spec fn split_segs(s: Seq<char>) -> Seq<Seq<char>>
    decreases s.len()
    via split_segs_decreases
{
    let i = first_sep(s);
    if i == s.len() {
        seq![s]
    } else {
        seq![s.take(i)] + split_segs(s.skip(i + 1))
    }
}

#[via_fn]
proof fn split_segs_decreases(s: Seq<char>) {
    lemma_first_sep(s);
}

/// Classifies raw segments into components. An empty segment produces
/// nothing; `.` is kept (as [`CompV::Cur`]) only when it stands at the very
/// start of the whole path (`at_start`); `..` becomes [`CompV::Parent`];
/// anything else is a named segment.
pub open spec fn classify_segs(segs: Seq<Seq<char>>, at_start: bool) -> Seq<CompV>
    decreases segs.len(),
{
    if segs.len() == 0 {
        Seq::empty()
    } else {
        let rest = classify_segs(segs.drop_first(), false);
        let s0 = segs[0];
        if s0.len() == 0 {
            rest
        } else if s0 == cur_seg() {
            if at_start {
                seq![CompV::Cur] + rest
            } else {
                rest
            }
        } else if s0 == parent_seg() {
            seq![CompV::Parent] + rest
        } else {
            seq![CompV::Name(s0)] + rest
        }
    }
}

/// Decomposes a path string into components. An absolute path contributes a
/// single [`CompV::Root`]; repeated separators contribute nothing.
pub open spec fn parse(s: Seq<char>) -> Seq<CompV> {
    if s.len() == 0 {
        Seq::empty()
    } else if s[0] == sep() {
        seq![CompV::Root] + classify_segs(split_segs(s), false)
    } else {
        classify_segs(split_segs(s), true)
    }
}

/// One step of reduction: how the reduced prefix `acc` absorbs the component
/// `c` standing at position `idx` of the unreduced input.
pub open spec fn reduce_step(acc: Seq<CompV>, c: CompV, idx: int) -> Seq<CompV> {
    match c {
        CompV::Cur => if idx == 0 {
            acc.push(CompV::Cur)
        } else {
            acc
        },
        CompV::Root => seq![CompV::Root],
        CompV::Parent => if acc.len() == 0 {
            acc.push(CompV::Parent)
        } else {
            match acc.last() {
                CompV::Cur => acc.push(CompV::Parent),
                CompV::Parent => acc.push(CompV::Parent),
                CompV::Root => seq![CompV::Root],
                CompV::Name(_) => acc.drop_last(),
            }
        },
        CompV::Name(n) => acc.push(CompV::Name(n)),
    }
}

/// Lexical reduction of a component sequence, folding [`reduce_step`] over
/// the components in order.
pub open spec fn reduce_comps(cs: Seq<CompV>) -> Seq<CompV>
    decreases cs.len(),
{
    if cs.len() == 0 {
        Seq::empty()
    } else {
        reduce_step(reduce_comps(cs.drop_last()), cs.last(), cs.len() - 1)
    }
}

/// The text of a single component.
pub open spec fn comp_str(c: CompV) -> Seq<char> {
    match c {
        CompV::Root => seq![sep()],
        CompV::Cur => cur_seg(),
        CompV::Parent => parent_seg(),
        CompV::Name(n) => n,
    }
}

/// The separator written between an already-rendered prefix and the next
/// component: nothing after an empty prefix or a lone root marker (whose
/// text already ends in the separator), one separator otherwise.
pub open spec fn sep_before(prefix: Seq<CompV>) -> Seq<char> {
    if prefix.len() == 0 || prefix == seq![CompV::Root] {
        Seq::empty()
    } else {
        seq![sep()]
    }
}

/// Renders a component sequence back into a path string.
pub open spec fn render(cs: Seq<CompV>) -> Seq<char>
    decreases cs.len(),
{
    if cs.len() == 0 {
        Seq::empty()
    } else {
        render(cs.drop_last()) + sep_before(cs.drop_last()) + comp_str(cs.last())
    }
}

/// Lexical reduction of a path string: decompose, reduce, render.
pub open spec fn reduce_spec(s: Seq<char>) -> Seq<char> {
    render(reduce_comps(parse(s)))
}

/// No separator occurs in `t`.
pub open spec fn no_sep(t: Seq<char>) -> bool {
    forall|c: int| 0 <= c < t.len() ==> t[c] != sep()
}

/// A well-formed named segment: non-empty, separator-free, and distinct
/// from the two marker segments.
pub open spec fn seg_wf(n: Seq<char>) -> bool {
    n.len() > 0 && no_sep(n) && n != cur_seg() && n != parent_seg()
}

/// Named components carry well-formed segments; markers carry nothing.
pub open spec fn comp_name_wf(c: CompV) -> bool {
    match c {
        CompV::Name(n) => seg_wf(n),
        _ => true,
    }
}

/// The shape of every parsed component sequence: well-formed names, and the
/// root and current-dir markers nowhere but in front.
pub open spec fn parse_wf(cs: Seq<CompV>) -> bool {
    &&& forall|k: int| 0 <= k < cs.len() ==> comp_name_wf(#[trigger] cs[k])
    &&& forall|k: int| 1 <= k < cs.len() ==> !((#[trigger] cs[k]) is Cur) && !(cs[k] is Root)
}

/// Segments produced by splitting are separator-free.
pub proof fn lemma_split_segs_no_sep(s: Seq<char>)
    ensures
        forall|k: int| 0 <= k < split_segs(s).len() ==> no_sep(#[trigger] split_segs(s)[k]),
    decreases s.len(),
{
    lemma_first_sep(s);
    let i = first_sep(s);
    if i < s.len() {
        lemma_split_segs_no_sep(s.skip(i + 1));
        assert forall|k: int| 0 <= k < split_segs(s).len() implies no_sep(
            #[trigger] split_segs(s)[k],
        ) by {
            if k > 0 {
                assert(split_segs(s)[k] == split_segs(s.skip(i + 1))[k - 1]);
            }
        }
    }
}

/// Classification yields well-formed names, no root marker, and a
/// current-dir marker at most in front, and there only when `at_start`.
pub proof fn lemma_classify_wf(segs: Seq<Seq<char>>, at_start: bool)
    requires
        forall|k: int| 0 <= k < segs.len() ==> no_sep(#[trigger] segs[k]),
    ensures
        forall|k: int|
            0 <= k < classify_segs(segs, at_start).len() ==> comp_name_wf(
                #[trigger] classify_segs(segs, at_start)[k],
            ) && !(classify_segs(segs, at_start)[k] is Root),
        forall|k: int|
            0 <= k < classify_segs(segs, at_start).len() && (#[trigger] classify_segs(
                segs,
                at_start,
            )[k]) is Cur ==> at_start && k == 0,
    decreases segs.len(),
{
    if segs.len() > 0 {
        lemma_classify_wf(segs.drop_first(), false);
    }
}

/// Parsing yields a sequence of the shape [`parse_wf`] describes.
pub proof fn lemma_parse_wf(s: Seq<char>)
    ensures
        parse_wf(parse(s)),
    decreases s.len(),
{
    if s.len() > 0 {
        lemma_split_segs_no_sep(s);
        if s[0] == sep() {
            lemma_classify_wf(split_segs(s), false);
        } else {
            lemma_classify_wf(split_segs(s), true);
        }
    }
}

/// Reduction introduces no named component of its own: every name it emits
/// was a name of its input.
pub proof fn lemma_reduce_names_wf(cs: Seq<CompV>)
    requires
        forall|k: int| 0 <= k < cs.len() ==> comp_name_wf(#[trigger] cs[k]),
    ensures
        forall|k: int|
            0 <= k < reduce_comps(cs).len() ==> comp_name_wf(#[trigger] reduce_comps(cs)[k]),
    decreases cs.len(),
{
    if cs.len() > 0 {
        assert(forall|k: int|
            0 <= k < cs.len() - 1 ==> cs.drop_last()[k] == cs[k]);
        lemma_reduce_names_wf(cs.drop_last());
        let acc = reduce_comps(cs.drop_last());
        assert(forall|k: int| 0 <= k < acc.len() - 1 ==> acc.drop_last()[k] == acc[k]);
    }
}

/// The shape of every reduced sequence: on top of [`parse_wf`], an absolute
/// result holds nothing but names behind the root marker, and no
/// parent-dir marker follows a name (the name would have absorbed it).
pub open spec fn reduced_wf(cs: Seq<CompV>) -> bool {
    &&& parse_wf(cs)
    &&& (cs.len() > 0 && cs[0] is Root ==> forall|k: int|
        1 <= k < cs.len() ==> (#[trigger] cs[k]) is Name)
    &&& forall|k1: int, k2: int|
        0 <= k1 < k2 < cs.len() && (#[trigger] cs[k1]) is Name ==> !((#[trigger] cs[k2]) is Parent)
}

/// Reduction of a parsed sequence yields a reduced one.
pub proof fn lemma_reduce_reduced(cs: Seq<CompV>)
    requires
        parse_wf(cs),
    ensures
        reduced_wf(reduce_comps(cs)),
    decreases cs.len(),
{
    if cs.len() > 0 {
        assert(forall|k: int| 0 <= k < cs.len() - 1 ==> cs.drop_last()[k] == cs[k]);
        lemma_reduce_reduced(cs.drop_last());
        let acc = reduce_comps(cs.drop_last());
        let c = cs.last();
        let res = reduce_step(acc, c, cs.len() - 1);
        match c {
            CompV::Cur => {
                if cs.len() == 1 {
                    assert(acc =~= Seq::<CompV>::empty());
                    assert(res =~= seq![CompV::Cur]);
                }
            },
            CompV::Root => {
                assert(res =~= seq![CompV::Root]);
            },
            CompV::Name(_) => {
                assert(forall|k: int| 0 <= k < acc.len() ==> res[k] == acc[k]);
                if acc.len() > 0 && acc[0] is Root {
                    assert(forall|k: int| 1 <= k < res.len() - 1 ==> (#[trigger] res[k]) is Name);
                }
            },
            CompV::Parent => {
                if acc.len() == 0 {
                    assert(res =~= seq![CompV::Parent]);
                } else {
                    match acc.last() {
                        CompV::Cur => {
                            assert(acc.last() == acc[acc.len() - 1]);
                            assert(acc.len() == 1);
                            assert(forall|k: int| 0 <= k < acc.len() ==> res[k] == acc[k]);
                        },
                        CompV::Parent => {
                            assert(acc.last() == acc[acc.len() - 1]);
                            assert forall|k1: int| 0 <= k1 < acc.len() implies !((
                            #[trigger] acc[k1]) is Name) by {
                                if k1 < acc.len() - 1 && acc[k1] is Name {
                                    assert(acc[acc.len() - 1] is Parent);
                                }
                            }
                            assert(forall|k: int| 0 <= k < acc.len() ==> res[k] == acc[k]);
                        },
                        CompV::Root => {
                            assert(res =~= seq![CompV::Root]);
                        },
                        CompV::Name(_) => {
                            assert(forall|k: int|
                                0 <= k < acc.len() - 1 ==> res[k] == acc[k]);
                        },
                    }
                }
            },
        }
    }
}

/// A non-empty well-formed rendering is non-empty, and starts with the
/// separator exactly when the sequence starts with the root marker.
pub proof fn lemma_render_first(cs: Seq<CompV>)
    requires
        parse_wf(cs),
        cs.len() > 0,
    ensures
        render(cs).len() > 0,
        render(cs)[0] == sep() <==> cs[0] is Root,
    decreases cs.len(),
{
    if cs.len() == 1 {
        assert(render(cs) =~= comp_str(cs[0]));
        match cs[0] {
            CompV::Name(n) => {
                assert(n[0] != sep());
            },
            _ => {},
        }
    } else {
        assert(forall|k: int| 0 <= k < cs.len() - 1 ==> cs.drop_last()[k] == cs[k]);
        lemma_render_first(cs.drop_last());
        assert(render(cs)[0] == render(cs.drop_last())[0]);
    }
}

/// Splitting distributes over concatenation at a separator.
pub proof fn lemma_split_concat(a: Seq<char>, b: Seq<char>)
    ensures
        split_segs(a + seq![sep()] + b) == split_segs(a) + split_segs(b),
    decreases a.len(),
{
    lemma_first_sep(a);
    let s = a + seq![sep()] + b;
    let i = first_sep(a);
    assert(forall|j: int| 0 <= j < a.len() ==> s[j] == a[j]);
    assert(s[a.len() as int] == sep());
    if i == a.len() {
        lemma_first_sep_is(s, i);
        assert(s.take(i) =~= a);
        assert(s.skip(i + 1) =~= b);
        assert(split_segs(s) =~= split_segs(a) + split_segs(b));
    } else {
        lemma_first_sep_is(s, i);
        assert(s.take(i) =~= a.take(i));
        assert(s.skip(i + 1) =~= a.skip(i + 1) + seq![sep()] + b);
        lemma_split_concat(a.skip(i + 1), b);
        assert(split_segs(s) =~= split_segs(a) + split_segs(b));
    }
}

/// Classification distributes over concatenation of segment lists; only
/// the first list can stand at the start of the path.
pub proof fn lemma_classify_concat(s1: Seq<Seq<char>>, s2: Seq<Seq<char>>, at_start: bool)
    requires
        s1.len() > 0,
    ensures
        classify_segs(s1 + s2, at_start) == classify_segs(s1, at_start) + classify_segs(
            s2,
            false,
        ),
    decreases s1.len(),
{
    let s = s1 + s2;
    assert(s[0] == s1[0]);
    if s1.len() == 1 {
        assert(s.drop_first() =~= s2);
        assert(s1.drop_first() =~= Seq::<Seq<char>>::empty());
        assert(classify_segs(Seq::<Seq<char>>::empty(), false) =~= Seq::<CompV>::empty());
        assert(classify_segs(s, at_start) =~= classify_segs(s1, at_start) + classify_segs(
            s2,
            false,
        ));
    } else {
        assert(s.drop_first() =~= s1.drop_first() + s2);
        lemma_classify_concat(s1.drop_first(), s2, false);
        assert(classify_segs(s, at_start) =~= classify_segs(s1, at_start) + classify_segs(
            s2,
            false,
        ));
    }
}

/// Parsing undoes rendering on sequences of the parsed shape.
pub proof fn lemma_parse_render(cs: Seq<CompV>)
    requires
        parse_wf(cs),
    ensures
        parse(render(cs)) == cs,
    decreases cs.len(),
{
    if cs.len() == 0 {
        assert(parse(render(cs)) =~= cs);
    } else if cs.len() == 1 {
        lemma_parse_render_single(cs);
    } else {
        let prefix = cs.drop_last();
        let c = cs.last();
        assert(forall|k: int| 0 <= k < cs.len() - 1 ==> prefix[k] == cs[k]);
        assert(!(c is Root) && !(c is Cur));
        lemma_parse_render(prefix);
        lemma_render_first(prefix);
        proof_parse_render_step(prefix, c);
        assert(cs =~= prefix.push(c));
    }
}

/// Splitting yields at least one segment.
pub proof fn lemma_split_nonempty(s: Seq<char>)
    ensures
        split_segs(s).len() >= 1,
{
    lemma_first_sep(s);
}

/// The text of a parent marker or a well-formed name classifies back to
/// that very component.
pub proof fn lemma_classify_single(c: CompV)
    requires
        comp_name_wf(c),
        c is Parent || c is Name,
    ensures
        split_segs(comp_str(c)) == seq![comp_str(c)],
        classify_segs(seq![comp_str(c)], false) == seq![c],
{
    let t = comp_str(c);
    assert(t.len() > 0);
    assert forall|j: int| 0 <= j < t.len() implies t[j] != sep() by {
        match c {
            CompV::Parent => {
                assert(t =~= parent_seg());
            },
            _ => {},
        }
    }
    lemma_first_sep_is(t, t.len() as int);
    assert(split_segs(t) =~= seq![t]);
    assert(seq![t].drop_first() =~= Seq::<Seq<char>>::empty());
    assert(classify_segs(Seq::<Seq<char>>::empty(), false) =~= Seq::<CompV>::empty());
    assert(seq![t][0] == t);
    match c {
        CompV::Parent => {
            assert(t == parent_seg());
            assert(t != cur_seg());
            assert(classify_segs(seq![t], false) =~= seq![c]);
        },
        CompV::Name(n) => {
            assert(classify_segs(seq![t], false) =~= seq![c]);
        },
        _ => {},
    }
}

/// One step of the round trip: appending one component to a rendered
/// prefix appends exactly that component to the parse.
proof fn proof_parse_render_step(prefix: Seq<CompV>, c: CompV)
    requires
        parse_wf(prefix),
        prefix.len() > 0,
        comp_name_wf(c),
        c is Parent || c is Name,
        parse(render(prefix)) == prefix,
    ensures
        parse(render(prefix.push(c))) == prefix.push(c),
{
    let cs = prefix.push(c);
    assert(cs.drop_last() =~= prefix);
    assert(cs.last() == c);
    let rp = render(prefix);
    let t = comp_str(c);
    lemma_render_first(prefix);
    lemma_classify_single(c);
    if prefix =~= seq![CompV::Root] {
        assert(cs.drop_last() == seq![CompV::Root]);
        assert(render(Seq::<CompV>::empty()) =~= Seq::<char>::empty());
        assert(seq![CompV::Root].drop_last() =~= Seq::<CompV>::empty());
        assert(render(seq![CompV::Root]) =~= seq![sep()]);
        assert(render(cs) =~= seq![sep()] + t);
        let s = seq![sep()] + t;
        assert(s[0] == sep());
        assert(s =~= Seq::<char>::empty() + seq![sep()] + t);
        lemma_split_concat(Seq::<char>::empty(), t);
        lemma_first_sep_is(Seq::<char>::empty(), 0);
        assert(split_segs(Seq::<char>::empty()) =~= seq![Seq::<char>::empty()]);
        assert(split_segs(s) =~= seq![Seq::<char>::empty()] + seq![t]);
        lemma_classify_concat(seq![Seq::<char>::empty()], seq![t], false);
        assert(seq![Seq::<char>::empty()].drop_first() =~= Seq::<Seq<char>>::empty());
        assert(classify_segs(Seq::<Seq<char>>::empty(), false) =~= Seq::<CompV>::empty());
        assert(classify_segs(seq![Seq::<char>::empty()], false) =~= Seq::<CompV>::empty());
        assert(parse(s) =~= seq![CompV::Root] + seq![c]);
        assert(parse(render(cs)) =~= cs);
    } else {
        assert(render(cs) =~= rp + seq![sep()] + t);
        let s = rp + seq![sep()] + t;
        assert(rp.len() > 0);
        assert(s[0] == rp[0]);
        lemma_split_concat(rp, t);
        assert(split_segs(s) == split_segs(rp) + seq![t]);
        lemma_classify_concat(split_segs(rp), seq![t], rp[0] != sep());
        if rp[0] == sep() {
            assert(prefix[0] is Root);
            assert(parse(rp) == seq![CompV::Root] + classify_segs(split_segs(rp), false));
            assert(parse(s) == seq![CompV::Root] + classify_segs(split_segs(s), false));
            assert(parse(s) =~= cs);
        } else {
            assert(!(prefix[0] is Root));
            assert(parse(rp) == classify_segs(split_segs(rp), true));
            assert(parse(s) == classify_segs(split_segs(s), true));
            assert(parse(s) =~= cs);
        }
    }
}

/// The round trip on the four one-component sequences.
proof fn lemma_parse_render_single(cs: Seq<CompV>)
    requires
        parse_wf(cs),
        cs.len() == 1,
    ensures
        parse(render(cs)) == cs,
{
    assert(cs.drop_last() =~= Seq::<CompV>::empty());
    assert(cs.last() == cs[0]);
    assert(render(Seq::<CompV>::empty()) =~= Seq::<char>::empty());
    assert(render(cs) =~= comp_str(cs[0]));
    match cs[0] {
        CompV::Root => {
            let s = seq![sep()];
            lemma_first_sep_is(s, 0);
            assert(s.take(0) =~= Seq::<char>::empty());
            assert(s.skip(1) =~= Seq::<char>::empty());
            lemma_first_sep_is(Seq::<char>::empty(), 0);
            assert(split_segs(Seq::<char>::empty()) =~= seq![Seq::<char>::empty()]);
            assert(split_segs(s) =~= seq![Seq::<char>::empty(), Seq::<char>::empty()]);
            assert(classify_segs(Seq::<Seq<char>>::empty(), false) =~= Seq::<CompV>::empty());
            assert(seq![Seq::<char>::empty(), Seq::<char>::empty()].drop_first()
                =~= seq![Seq::<char>::empty()]);
            assert(seq![Seq::<char>::empty()].drop_first() =~= Seq::<Seq<char>>::empty());
            assert(classify_segs(seq![Seq::<char>::empty()], false) =~= Seq::<CompV>::empty());
            assert(classify_segs(split_segs(s), false) =~= Seq::<CompV>::empty());
            assert(parse(s) =~= cs);
        },
        CompV::Cur => {
            let s = cur_seg();
            lemma_first_sep_is(s, 1);
            assert(split_segs(s) =~= seq![s]);
            assert(seq![s].drop_first() =~= Seq::<Seq<char>>::empty());
            assert(classify_segs(Seq::<Seq<char>>::empty(), false) =~= Seq::<CompV>::empty());
            assert(classify_segs(split_segs(s), true) =~= cs);
            assert(s[0] != sep());
            assert(parse(s) =~= cs);
        },
        CompV::Parent => {
            lemma_classify_single(cs[0]);
            let s = parent_seg();
            assert(s[0] != sep());
            assert(classify_segs(seq![s], true) =~= classify_segs(seq![s], false));
            assert(parse(s) =~= cs);
        },
        CompV::Name(n) => {
            lemma_classify_single(cs[0]);
            assert(n[0] != sep());
            assert(classify_segs(seq![n], true) =~= classify_segs(seq![n], false));
            assert(parse(n) =~= cs);
        },
    }
}

/// A reduced sequence is a fixed point of reduction.
pub proof fn lemma_reduce_fix(cs: Seq<CompV>)
    requires
        reduced_wf(cs),
    ensures
        reduce_comps(cs) == cs,
    decreases cs.len(),
{
    if cs.len() > 0 {
        let prefix = cs.drop_last();
        let c = cs.last();
        assert(forall|k: int| 0 <= k < cs.len() - 1 ==> prefix[k] == cs[k]);
        lemma_reduce_fix(prefix);
        match c {
            CompV::Root => {
                assert(cs.len() == 1) by {
                    if cs.len() > 1 {
                        assert(cs[cs.len() - 1] is Root);
                    }
                }
                assert(reduce_step(prefix, c, 0) =~= cs);
            },
            CompV::Cur => {
                assert(cs.len() == 1) by {
                    if cs.len() > 1 {
                        assert(cs[cs.len() - 1] is Cur);
                    }
                }
                assert(reduce_step(prefix, c, 0) =~= cs);
            },
            CompV::Name(_) => {
                assert(reduce_step(prefix, c, cs.len() - 1) =~= cs);
            },
            CompV::Parent => {
                if prefix.len() == 0 {
                    assert(reduce_step(prefix, c, cs.len() - 1) =~= cs);
                } else {
                    assert(prefix.last() == cs[cs.len() - 2]);
                    assert(!(prefix.last() is Name)) by {
                        if prefix.last() is Name {
                            assert(cs[cs.len() - 2] is Name && cs[cs.len() - 1] is Parent);
                        }
                    }
                    assert(!(prefix.last() is Root)) by {
                        if prefix.last() is Root {
                            if cs.len() == 2 {
                                assert(cs[0] is Root && cs[1] is Parent);
                            } else {
                                assert(cs[cs.len() - 2] is Root);
                            }
                        }
                    }
                    assert(prefix.last() is Cur || prefix.last() is Parent);
                    assert(reduce_step(prefix, c, cs.len() - 1) =~= cs);
                }
            },
        }
    } else {
        assert(reduce_comps(cs) =~= cs);
    }
}

/// Lexical reduction is idempotent: reducing an already-reduced path
/// returns it unchanged.
pub proof fn lemma_reduce_idempotent(p: Seq<char>)
    ensures
        reduce_spec(reduce_spec(p)) == reduce_spec(p),
{
    lemma_parse_wf(p);
    lemma_reduce_reduced(parse(p));
    let r = reduce_comps(parse(p));
    lemma_parse_render(r);
    lemma_reduce_fix(r);
}

/// The component views of a component vector.
pub open spec fn views_of(cs: Seq<Component>) -> Seq<CompV> {
    Seq::new(cs.len(), |i: int| cs[i]@)
}

/// A position that satisfies the characterization of [`first_sep`] is
/// `first_sep` itself.
pub proof fn lemma_first_sep_is(s: Seq<char>, i: int)
    requires
        0 <= i <= s.len(),
        forall|j: int| 0 <= j < i ==> s[j] != sep(),
        i < s.len() ==> s[i] == sep(),
    ensures
        first_sep(s) == i,
{
    lemma_first_sep(s);
}

fn first_sep_exec(s: &str) -> (r: usize)
    ensures
        r == first_sep(s@),
{
    let n = s.unicode_len();
    let mut i: usize = 0;
    while i < n
        invariant
            0 <= i <= n,
            n == s@.len(),
            forall|j: int| 0 <= j < i ==> s@[j] != sep(),
        decreases n - i,
    {
        if s.get_char(i) == '/' {
            proof {
                lemma_first_sep_is(s@, i as int);
            }
            return i;
        }
        i = i + 1;
    }
    proof {
        lemma_first_sep_is(s@, n as int);
    }
    n
}

/// Classifies and collects the segments of `s`, with `at_start` saying
/// whether `s` begins at the very start of the whole path.
fn parse_comps(s: &str, at_start: bool) -> (res: Vec<Component>)
    ensures
        views_of(res@) == classify_segs(split_segs(s@), at_start),
    decreases s@.len(),
{
    let n = s.unicode_len();
    let i = first_sep_exec(s);
    proof {
        lemma_first_sep(s@);
    }
    let seg = s.substring_char(0, i);
    let mut res: Vec<Component> = if i < n {
        parse_comps(s.substring_char(i + 1, n), false)
    } else {
        Vec::new()
    };
    proof {
        if i < n {
            assert(split_segs(s@) == seq![s@.take(i as int)] + split_segs(s@.skip(i + 1)));
            assert(split_segs(s@).drop_first() =~= split_segs(s@.skip(i + 1)));
            assert(split_segs(s@)[0] == s@.take(i as int));
        } else {
            assert(split_segs(s@) =~= seq![s@]);
            assert(split_segs(s@).drop_first() =~= Seq::<Seq<char>>::empty());
            assert(classify_segs(split_segs(s@).drop_first(), false) =~= Seq::<CompV>::empty());
        }
        assert(seg@ == split_segs(s@)[0]);
    }
    let len = seg.unicode_len();
    if len == 0 {
        res
    } else if len == 1 && seg.get_char(0) == '.' {
        proof {
            assert(seg@ =~= cur_seg());
        }
        if at_start {
            res.insert(0, Component::CurDir);
            proof {
                assert(views_of(res@) =~= classify_segs(split_segs(s@), at_start));
            }
            res
        } else {
            res
        }
    } else if len == 2 && seg.get_char(0) == '.' && seg.get_char(1) == '.' {
        proof {
            assert(seg@ =~= parent_seg());
        }
        res.insert(0, Component::ParentDir);
        proof {
            assert(views_of(res@) =~= classify_segs(split_segs(s@), at_start));
        }
        res
    } else {
        proof {
            assert(seg@ != cur_seg());
            assert(seg@ != parent_seg());
        }
        res.insert(0, Component::Normal(seg.to_owned()));
        proof {
            assert(views_of(res@) =~= classify_segs(split_segs(s@), at_start));
        }
        res
    }
}

/// Decomposes a path string into its components, as [`parse`] describes.
pub fn components(path: &str) -> (res: Vec<Component>)
    ensures
        views_of(res@) == parse(path@),
{
    if path.unicode_len() == 0 {
        let res: Vec<Component> = Vec::new();
        proof {
            assert(views_of(res@) =~= parse(path@));
        }
        res
    } else if path.get_char(0) == '/' {
        let mut res = parse_comps(path, false);
        res.insert(0, Component::RootDir);
        proof {
            assert(views_of(res@) =~= parse(path@));
        }
        res
    } else {
        parse_comps(path, true)
    }
}

/// Folds [`reduce_step`] over the components, left to right.
pub fn reduce_components(comps: &Vec<Component>) -> (res: Vec<Component>)
    ensures
        views_of(res@) == reduce_comps(views_of(comps@)),
{
    let cs = Ghost(views_of(comps@));
    let mut acc: Vec<Component> = Vec::new();
    let mut i: usize = 0;
    proof {
        assert(cs@.take(0) =~= Seq::<CompV>::empty());
    }
    while i < comps.len()
        invariant
            0 <= i <= comps.len(),
            cs@ == views_of(comps@),
            views_of(acc@) == reduce_comps(cs@.take(i as int)),
        decreases comps.len() - i,
    {
        proof {
            assert(cs@.take(i + 1).drop_last() =~= cs@.take(i as int));
            assert(cs@.take(i + 1).last() == cs@[i as int]);
        }
        match &comps[i] {
            Component::CurDir => {
                if i == 0 {
                    acc.push(Component::CurDir);
                }
            },
            Component::RootDir => {
                acc.clear();
                acc.push(Component::RootDir);
            },
            Component::ParentDir => {
                if acc.len() == 0 {
                    acc.push(Component::ParentDir);
                } else {
                    let last = acc.len() - 1;
                    match &acc[last] {
                        Component::CurDir => {
                            acc.push(Component::ParentDir);
                        },
                        Component::ParentDir => {
                            acc.push(Component::ParentDir);
                        },
                        Component::RootDir => {
                            acc.clear();
                            acc.push(Component::RootDir);
                        },
                        Component::Normal(_) => {
                            let _ = acc.pop();
                            proof {
                                assert(views_of(acc@) =~= reduce_comps(
                                    cs@.take(i as int),
                                ).drop_last());
                            }
                        },
                    }
                }
            },
            Component::Normal(name) => {
                acc.push(Component::Normal(name.clone()));
            },
        }
        proof {
            assert(views_of(acc@) =~= reduce_comps(cs@.take(i + 1)));
        }
        i = i + 1;
    }
    proof {
        assert(cs@.take(comps.len() as int) =~= cs@);
    }
    acc
}

/// Renders components back into a path string, as [`render`] describes.
pub fn render_components(comps: &Vec<Component>) -> (res: String)
    ensures
        res@ == render(views_of(comps@)),
{
    let cs = Ghost(views_of(comps@));
    let mut res = String::new();
    let mut i: usize = 0;
    proof {
        reveal_strlit("/");
        reveal_strlit(".");
        reveal_strlit("..");
        assert(cs@.take(0) =~= Seq::<CompV>::empty());
    }
    while i < comps.len()
        invariant
            0 <= i <= comps.len(),
            cs@ == views_of(comps@),
            res@ == render(cs@.take(i as int)),
        decreases comps.len() - i,
    {
        proof {
            reveal_strlit("/");
            reveal_strlit(".");
            reveal_strlit("..");
            assert(cs@.take(i + 1).drop_last() =~= cs@.take(i as int));
            assert(cs@.take(i + 1).last() == cs@[i as int]);
        }
        if i > 0 {
            let root_only = if i == 1 {
                matches!(&comps[0], Component::RootDir)
            } else {
                false
            };
            if !root_only {
                res.append("/");
            }
            proof {
                if root_only {
                    assert(cs@.take(i as int) =~= seq![CompV::Root]);
                } else {
                    assert(cs@.take(i as int) != seq![CompV::Root]) by {
                        if i != 1 {
                            assert(cs@.take(i as int).len() != 1);
                        } else {
                            assert(cs@.take(1)[0] == cs@[0]);
                        }
                    }
                    assert("/"@ =~= seq![sep()]);
                }
            }
        }
        match &comps[i] {
            Component::RootDir => {
                res.append("/");
                proof {
                    assert("/"@ =~= seq![sep()]);
                }
            },
            Component::CurDir => {
                res.append(".");
                proof {
                    assert("."@ =~= cur_seg());
                }
            },
            Component::ParentDir => {
                res.append("..");
                proof {
                    assert(".."@ =~= parent_seg());
                }
            },
            Component::Normal(name) => {
                res.append(name.as_str());
            },
        }
        proof {
            assert(res@ =~= render(cs@.take(i + 1)));
        }
        i = i + 1;
    }
    proof {
        assert(cs@.take(comps.len() as int) =~= cs@);
    }
    res
}

/// Lexical path reduction: normalizes `.`, `..`, and repeated separators
/// without consulting any directory tree.
pub fn reduce(path: &str) -> (res: String)
    ensures
        res@ == reduce_spec(path@),
{
    let comps = components(path);
    let red = reduce_components(&comps);
    render_components(&red)
}

} // verus!

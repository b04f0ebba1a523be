//! The namespace cursor: one root directory, a current position into the
//! tree (stored as the chain of names from the root, re-resolved on use),
//! and a base path string kept consistent with that position. `cd` and
//! `mkdir` reduce a path lexically, walk the tree from the root, and change
//! cursor or tree only on full success.

use vstd::prelude::*;
use crate::paths::{
    classify_segs, comp_name_wf, components, cur_seg, lemma_classify_concat,
    lemma_classify_single, lemma_first_sep_is, lemma_parse_render, lemma_parse_wf,
    lemma_reduce_fix, lemma_reduce_names_wf, lemma_render_first, lemma_split_concat,
    lemma_split_nonempty, parse, parse_wf, reduce_comps, reduce_components, reduced_wf, render,
    render_components, seg_wf, sep, split_segs, views_of, CompV, Component,
};
use crate::tree::{dir_at, empty_dir, tree_insert, AnyFile, Dir, EntryV, FsError};

verus! {

/// The named components standing for a chain of member names.
pub open spec fn names_comps(names: Seq<Seq<char>>) -> Seq<CompV> {
    names.map_values(|n: Seq<char>| CompV::Name(n))
}

/// The absolute path components of a position: the root marker followed by
/// the chain of names.
pub open spec fn abs_comps(names: Seq<Seq<char>>) -> Seq<CompV> {
    seq![CompV::Root] + names_comps(names)
}

/// How a path argument is joined onto the stored base path: an absolute
/// argument replaces the base, a relative one is appended behind a
/// separator.
pub open spec fn spec_join(base: Seq<char>, p: Seq<char>) -> Seq<char> {
    if p.len() > 0 && p[0] == sep() {
        p
    } else {
        base + seq![sep()] + p
    }
}

/// The tree walk of reduced components, from the position `pos` under
/// `root`: the root marker resets the position, a named component descends
/// (failing with `NotFound` when absent and `NotADirectory` through a
/// file), and a surviving relative marker cannot be walked (`InvalidPath`).
pub open spec fn walk(
    root: Map<Seq<char>, EntryV>,
    pos: Seq<Seq<char>>,
    cs: Seq<CompV>,
) -> Result<Seq<Seq<char>>, FsError>
    decreases cs.len(),
{
    if cs.len() == 0 {
        Ok(pos)
    } else {
        match cs[0] {
            CompV::Root => walk(root, Seq::empty(), cs.drop_first()),
            CompV::Name(n) => match dir_at(root, pos) {
                Some(d) => if d.contains_key(n) {
                    match d[n] {
                        EntryV::Dir { .. } => walk(root, pos.push(n), cs.drop_first()),
                        EntryV::File { .. } => Err(FsError::NotADirectory),
                    }
                } else {
                    Err(FsError::NotFound)
                },
                None => Err(FsError::NotFound),
            },
            CompV::Cur => Err(FsError::InvalidPath),
            CompV::Parent => Err(FsError::InvalidPath),
        }
    }
}

/// The mathematical state of a namespace: base path, position, tree.
pub struct FsV {
    pub path: Seq<char>,
    pub cwd: Seq<Seq<char>>,
    pub root: Map<Seq<char>, EntryV>,
}

/// What `cd` does: join, reduce, walk from the root; on success the
/// position and the base path are replaced together.
pub open spec fn spec_cd(fs: FsV, p: Seq<char>) -> Result<FsV, FsError> {
    let red = reduce_comps(parse(spec_join(fs.path, p)));
    match walk(fs.root, Seq::empty(), red) {
        Ok(pos) => Ok(FsV { path: render(abs_comps(pos)), cwd: pos, root: fs.root }),
        Err(e) => Err(e),
    }
}

/// The name a component carries, if it is a named one.
pub open spec fn comp_name(c: CompV) -> Seq<char> {
    match c {
        CompV::Name(n) => n,
        _ => Seq::empty(),
    }
}

/// What `mkdir` does: join and reduce the target, split off the leaf name
/// (`EmptyName` when the target does not end in one), `cd` to the rendered
/// parent path, and bind a fresh empty directory to the leaf there
/// (`AlreadyExists` when the parent already has it). On success the cursor
/// stays at the resolved parent; on any failure the state is unchanged.
pub open spec fn spec_mkdir(fs: FsV, name: Seq<char>) -> Result<FsV, FsError> {
    let red = reduce_comps(parse(spec_join(fs.path, name)));
    if red.len() == 0 || !(red.last() is Name) {
        Err(FsError::EmptyName)
    } else {
        let leaf = comp_name(red.last());
        match spec_cd(fs, render(red.drop_last())) {
            Ok(fs2) => if dir_at(fs2.root, fs2.cwd).unwrap().contains_key(leaf) {
                Err(FsError::AlreadyExists)
            } else {
                Ok(
                    FsV {
                        path: fs2.path,
                        cwd: fs2.cwd,
                        root: tree_insert(fs2.root, fs2.cwd, leaf, empty_dir()),
                    },
                )
            },
            Err(e) => Err(e),
        }
    }
}

/// The namespace: the owned root directory, the current position as the
/// chain of names from the root, and the base path string. The operations
/// require [`Fs::wf`]; callers that reach into the fields directly are
/// responsible for keeping it.
pub struct Fs {
    pub path: String,
    pub cwd: Vec<String>,
    pub root: Box<Dir>,
}

impl View for Fs {
    type V = FsV;

    open spec fn view(&self) -> FsV {
        FsV { path: self.path@, cwd: self.cwd.deep_view(), root: self.root@ }
    }
}

/// Well-formedness of a namespace state: the position resolves to a live
/// directory, its names are well-formed segments, and the base path renders
/// the position.
pub open spec fn fsv_wf(fs: FsV) -> bool {
    &&& dir_at(fs.root, fs.cwd) is Some
    &&& forall|k: int| 0 <= k < fs.cwd.len() ==> seg_wf(#[trigger] fs.cwd[k])
    &&& fs.path == render(abs_comps(fs.cwd))
}

impl Fs {
    /// Well-formedness: the tree is well-formed and the state is, too.
    pub open spec fn wf(&self) -> bool {
        &&& self.root.wf()
        &&& fsv_wf(self@)
    }
}

/// Descends from `d` through `names[i..]`, which must resolve to a
/// directory, and hands that directory back.
fn dir_ref_at<'a>(d: &'a Dir, names: &Vec<String>, i: usize) -> (r: &'a Dir)
    requires
        d.wf(),
        i <= names@.len(),
        dir_at(d@, names.deep_view().skip(i as int)) is Some,
    ensures
        r@ == dir_at(d@, names.deep_view().skip(i as int)).unwrap(),
        r.wf(),
    decreases names@.len() - i,
{
    let ghost suffix = names.deep_view().skip(i as int);
    if i == names.len() {
        proof {
            assert(suffix =~= Seq::<Seq<char>>::empty());
        }
        return d;
    }
    proof {
        assert(suffix[0] == names@[i as int]@);
        assert(suffix.drop_first() =~= names.deep_view().skip(i + 1));
    }
    // The position resolves to a directory, so the name is bound to one;
    // the other arms are provably unreachable.
    match d.lookup(&names[i]) {
        Some(e) => match e {
            AnyFile::Dir(dd) => dir_ref_at(dd, names, i + 1),
            AnyFile::File(_) => {
                proof {
                    assert(false);
                }
                d
            },
        },
        None => {
            proof {
                assert(false);
            }
            d
        },
    }
}

/// Renders a position as its absolute path string.
fn render_abs(names: &Vec<String>) -> (res: String)
    ensures
        res@ == render(abs_comps(names.deep_view())),
{
    let mut comps: Vec<Component> = Vec::new();
    comps.push(Component::RootDir);
    let mut i: usize = 0;
    while i < names.len()
        invariant
            0 <= i <= names@.len(),
            comps@.len() == i + 1,
            comps@[0] == Component::RootDir,
            forall|k: int|
                1 <= k < comps@.len() ==> comps@[k] == Component::Normal(names@[k - 1]),
        decreases names@.len() - i,
    {
        comps.push(Component::Normal(names[i].clone()));
        i = i + 1;
    }
    let res = render_components(&comps);
    proof {
        assert(views_of(comps@) =~= abs_comps(names.deep_view()));
    }
    res
}

/// Descending one further name from a resolved position resolves to the
/// member directory it names.
pub proof fn lemma_dir_at_push(
    root: Map<Seq<char>, EntryV>,
    pos: Seq<Seq<char>>,
    n: Seq<char>,
    m2: Map<Seq<char>, EntryV>,
)
    requires
        dir_at(root, pos) is Some,
        dir_at(root, pos).unwrap().contains_key(n),
        dir_at(root, pos).unwrap()[n] == (EntryV::Dir { members: m2 }),
    ensures
        dir_at(root, pos.push(n)) == Some(m2),
    decreases pos.len(),
{
    if pos.len() == 0 {
        assert(pos.push(n).drop_first() =~= Seq::<Seq<char>>::empty());
        assert(pos.push(n)[0] == n);
        assert(dir_at(m2, Seq::<Seq<char>>::empty()) == Some(m2));
    } else {
        assert(pos.push(n).drop_first() =~= pos.drop_first().push(n));
        assert(pos.push(n)[0] == pos[0]);
        match root[pos[0]] {
            EntryV::Dir { members } => {
                lemma_dir_at_push(members, pos.drop_first(), n, m2);
            },
            EntryV::File { .. } => {},
        }
    }
}

impl Fs {
    /// Splits the borrow of the namespace into its cursor position and its
    /// root directory.
    pub fn split(&mut self) -> (r: (&mut Vec<String>, &mut Box<Dir>))
        ensures
            *r.0 == old(self).cwd,
            *r.1 == old(self).root,
            final(self).cwd == *final(r.0),
            final(self).root == *final(r.1),
            final(self).path == old(self).path,
    {
        (&mut self.cwd, &mut self.root)
    }

    /// A fresh namespace: an empty root directory, the cursor on it, the
    /// base path at the root.
    pub fn new() -> (fs: Fs)
        ensures
            fs.wf(),
            fs@.root == Map::<Seq<char>, EntryV>::empty(),
            fs@.cwd == Seq::<Seq<char>>::empty(),
            fs@.path == seq![sep()],
    {
        Fs::default()
    }

    /// The directory the cursor stands on.
    pub fn cwd_dir(&self) -> (r: &Dir)
        requires
            self.wf(),
        ensures
            r@ == dir_at(self@.root, self@.cwd).unwrap(),
            r.wf(),
    {
        proof {
            assert(self.cwd.deep_view().skip(0) =~= self@.cwd);
        }
        dir_ref_at(&self.root, &self.cwd, 0)
    }

    /// The stored base path joined with a path argument.
    fn join_base(&self, p: &str) -> (res: String)
        ensures
            res@ == spec_join(self@.path, p@),
    {
        proof {
            reveal_strlit("/");
        }
        if p.unicode_len() > 0 && p.get_char(0) == '/' {
            p.to_owned()
        } else {
            let mut res = self.path.clone();
            res.append("/");
            res.append(p);
            proof {
                assert("/"@ =~= seq![sep()]);
            }
            res
        }
    }

    /// Changes the current directory: joins `path` onto the base path,
    /// reduces it, and walks the tree from the root. On success position
    /// and base path are replaced together; on any failure both are exactly
    /// as before the call, and the error says why the walk stopped.
    pub fn cd(&mut self, path: &str) -> (r: Result<(), FsError>)
        requires
            old(self).wf(),
        ensures
            final(self).wf(),
            match r {
                Ok(()) => spec_cd(old(self)@, path@) == Ok::<FsV, FsError>(final(self)@),
                Err(e) => *final(self) == *old(self) && spec_cd(old(self)@, path@) == Err::<
                    FsV,
                    FsError,
                >(e),
            },
    {
        let joined = self.join_base(path);
        let comps = components(joined.as_str());
        let red = reduce_components(&comps);
        let ghost red_v = views_of(red@);
        let ghost rootm = self.root@;
        proof {
            lemma_parse_wf(joined@);
            lemma_reduce_names_wf(parse(joined@));
        }
        let mut pos: Vec<String> = Vec::new();
        let mut cur: &Dir = &self.root;
        let mut i: usize = 0;
        proof {
            assert(pos.deep_view() =~= Seq::<Seq<char>>::empty());
            assert(red_v.skip(0) =~= red_v);
        }
        while i < red.len()
            invariant
                *self == *old(self),
                old(self).wf(),
                0 <= i <= red@.len(),
                red_v == views_of(red@),
                red_v == reduce_comps(parse(spec_join(old(self)@.path, path@))),
                forall|k: int| 0 <= k < red_v.len() ==> comp_name_wf(#[trigger] red_v[k]),
                rootm == self.root@,
                cur.wf(),
                dir_at(rootm, pos.deep_view()) == Some(cur@),
                forall|k: int| 0 <= k < pos@.len() ==> seg_wf(#[trigger] pos.deep_view()[k]),
                walk(rootm, Seq::empty(), red_v) == walk(rootm, pos.deep_view(), red_v.skip(i as int)),
            decreases red@.len() - i,
        {
            proof {
                assert(red_v.skip(i as int).drop_first() =~= red_v.skip(i + 1));
                assert(red_v.skip(i as int)[0] == red_v[i as int]);
            }
            match &red[i] {
                Component::RootDir => {
                    pos = Vec::new();
                    cur = &self.root;
                    proof {
                        assert(pos.deep_view() =~= Seq::<Seq<char>>::empty());
                    }
                },
                Component::Normal(name) => {
                    match cur.lookup(name) {
                        None => {
                            return Err(FsError::NotFound);
                        },
                        Some(e) => match e {
                            AnyFile::File(_) => {
                                return Err(FsError::NotADirectory);
                            },
                            AnyFile::Dir(d) => {
                                proof {
                                    lemma_dir_at_push(rootm, pos.deep_view(), name@, d@);
                                }
                                let ghost oldpos = pos.deep_view();
                                pos.push(name.clone());
                                cur = d;
                                proof {
                                    assert(pos.deep_view() =~= oldpos.push(name@));
                                }
                            },
                        },
                    }
                },
                Component::CurDir => {
                    return Err(FsError::InvalidPath);
                },
                Component::ParentDir => {
                    return Err(FsError::InvalidPath);
                },
            }
            i = i + 1;
        }
        proof {
            assert(red_v.skip(red@.len() as int) =~= Seq::<CompV>::empty());
        }
        let newpath = render_abs(&pos);
        self.cwd = pos;
        self.path = newpath;
        Ok(())
    }
}

/// Resolution composes: descending through `a + b` is descending through
/// `a`, then through `b` from there.
pub proof fn lemma_dir_at_concat(
    root: Map<Seq<char>, EntryV>,
    a: Seq<Seq<char>>,
    b: Seq<Seq<char>>,
)
    ensures
        dir_at(root, a + b) == (match dir_at(root, a) {
            Some(m) => dir_at(m, b),
            None => None::<Map<Seq<char>, EntryV>>,
        }),
    decreases a.len(),
{
    if a.len() == 0 {
        assert(a + b =~= b);
    } else {
        assert((a + b)[0] == a[0]);
        assert((a + b).drop_first() =~= a.drop_first() + b);
        if root.contains_key(a[0]) {
            match root[a[0]] {
                EntryV::Dir { members } => {
                    lemma_dir_at_concat(members, a.drop_first(), b);
                },
                EntryV::File { .. } => {
                    assert((a + b).len() > 0);
                },
            }
        }
    }
}

/// Walking named components from a position that resolves all the way
/// succeeds and lands on the concatenated position.
pub proof fn lemma_walk_names(
    root: Map<Seq<char>, EntryV>,
    pos: Seq<Seq<char>>,
    ns: Seq<Seq<char>>,
)
    requires
        dir_at(root, pos + ns) is Some,
    ensures
        walk(root, pos, names_comps(ns)) == Ok::<Seq<Seq<char>>, FsError>(pos + ns),
    decreases ns.len(),
{
    if ns.len() == 0 {
        assert(pos + ns =~= pos);
        assert(names_comps(ns) =~= Seq::<CompV>::empty());
    } else {
        assert(names_comps(ns)[0] == CompV::Name(ns[0]));
        assert(names_comps(ns).drop_first() =~= names_comps(ns.drop_first()));
        lemma_dir_at_concat(root, pos, ns);
        let d = dir_at(root, pos).unwrap();
        assert(dir_at(d, ns) is Some);
        assert(d.contains_key(ns[0]));
        match d[ns[0]] {
            EntryV::Dir { .. } => {
                assert(pos.push(ns[0]) + ns.drop_first() =~= pos + ns);
                lemma_walk_names(root, pos.push(ns[0]), ns.drop_first());
            },
            EntryV::File { .. } => {
                assert(dir_at(d, ns) is None);
            },
        }
    }
}

/// The components of a position are well-formed and reduced.
proof fn lemma_abs_comps_wf(names: Seq<Seq<char>>)
    requires
        forall|k: int| 0 <= k < names.len() ==> seg_wf(#[trigger] names[k]),
    ensures
        parse_wf(abs_comps(names)),
        reduced_wf(abs_comps(names)),
        abs_comps(names).len() == names.len() + 1,
        abs_comps(names)[0] is Root,
        forall|k: int|
            1 <= k < abs_comps(names).len() ==> abs_comps(names)[k] == CompV::Name(
                names[k - 1],
            ),
{
    assert(forall|k: int|
        0 <= k < names.len() ==> names_comps(names)[k] == CompV::Name(names[k]));
}

/// Joining one well-formed name onto the rendering of a position parses and
/// reduces to the position's components followed by that name.
proof fn lemma_join_name(names: Seq<Seq<char>>, x: Seq<char>)
    requires
        forall|k: int| 0 <= k < names.len() ==> seg_wf(#[trigger] names[k]),
        seg_wf(x),
    ensures
        reduce_comps(parse(spec_join(render(abs_comps(names)), x))) == abs_comps(names).push(
            CompV::Name(x),
        ),
{
    let acs = abs_comps(names);
    lemma_abs_comps_wf(names);
    lemma_parse_render(acs);
    lemma_render_first(acs);
    let rp = render(acs);
    assert(x[0] != sep());
    assert(spec_join(rp, x) == rp + seq![sep()] + x);
    let s = rp + seq![sep()] + x;
    assert(s[0] == rp[0]);
    assert(rp[0] == sep());
    lemma_split_concat(rp, x);
    lemma_classify_single(CompV::Name(x));
    lemma_split_nonempty(rp);
    lemma_classify_concat(
        split_segs(rp),
        seq![x],
        false,
    );
    assert(parse(s) =~= parse(rp) + seq![CompV::Name(x)]);
    assert(parse(s) =~= acs.push(CompV::Name(x)));
    let pushed = acs.push(CompV::Name(x));
    assert(reduced_wf(pushed)) by {
        assert(forall|k: int| 0 <= k < acs.len() ==> pushed[k] == acs[k]);
    }
    lemma_reduce_fix(pushed);
}

/// Walking components appended behind others walks the prefix first; its
/// failure is the whole walk's failure.
pub proof fn lemma_walk_append(
    root: Map<Seq<char>, EntryV>,
    pos: Seq<Seq<char>>,
    cs: Seq<CompV>,
    c: CompV,
)
    ensures
        walk(root, pos, cs.push(c)) == (match walk(root, pos, cs) {
            Ok(p) => walk(root, p, seq![c]),
            Err(e) => Err(e),
        }),
    decreases cs.len(),
{
    if cs.len() == 0 {
        assert(cs.push(c)[0] == c);
        assert(cs.push(c).drop_first() =~= Seq::<CompV>::empty());
        assert(seq![c][0] == c);
        assert(seq![c].drop_first() =~= Seq::<CompV>::empty());
    } else {
        assert(cs.push(c)[0] == cs[0]);
        assert(cs.push(c).drop_first() =~= cs.drop_first().push(c));
        match cs[0] {
            CompV::Root => {
                lemma_walk_append(root, Seq::empty(), cs.drop_first(), c);
            },
            CompV::Name(n) => {
                match dir_at(root, pos) {
                    Some(d) => {
                        if d.contains_key(n) && d[n] is Dir {
                            lemma_walk_append(root, pos.push(n), cs.drop_first(), c);
                        }
                    },
                    None => {},
                }
            },
            CompV::Cur => {},
            CompV::Parent => {},
        }
    }
}

/// Changing to the rendering of the stored position resolves to the very
/// state the namespace is in.
pub proof fn lemma_cd_abs(fs: FsV)
    requires
        fsv_wf(fs),
    ensures
        spec_cd(fs, render(abs_comps(fs.cwd))) == Ok::<FsV, FsError>(fs),
{
    let acs = abs_comps(fs.cwd);
    lemma_abs_comps_wf(fs.cwd);
    lemma_parse_render(acs);
    lemma_render_first(acs);
    let rp = render(acs);
    assert(spec_join(fs.path, rp) == rp);
    lemma_reduce_fix(acs);
    assert(Seq::<Seq<char>>::empty() + fs.cwd =~= fs.cwd);
    lemma_walk_names(fs.root, Seq::<Seq<char>>::empty(), fs.cwd);
    assert(acs[0] is Root);
    assert(acs.drop_first() =~= names_comps(fs.cwd));
}

/// Changing into a plain name resolves it in the directory the cursor
/// stands on: `NotFound` when the name is absent, `NotADirectory` when it
/// names a file, and one step down when it names a directory.
pub proof fn lemma_cd_name(fs: FsV, x: Seq<char>)
    requires
        fsv_wf(fs),
        seg_wf(x),
    ensures
        ({
            let d = dir_at(fs.root, fs.cwd).unwrap();
            &&& !d.contains_key(x) ==> spec_cd(fs, x) == Err::<FsV, FsError>(FsError::NotFound)
            &&& d.contains_key(x) && d[x] is File ==> spec_cd(fs, x) == Err::<FsV, FsError>(
                FsError::NotADirectory,
            )
            &&& d.contains_key(x) && d[x] is Dir ==> spec_cd(fs, x) is Ok && spec_cd(
                fs,
                x,
            ).unwrap().cwd == fs.cwd.push(x)
        }),
{
    let acs = abs_comps(fs.cwd);
    lemma_abs_comps_wf(fs.cwd);
    lemma_join_name(fs.cwd, x);
    assert(reduce_comps(parse(spec_join(fs.path, x))) == acs.push(CompV::Name(x)));
    assert(Seq::<Seq<char>>::empty() + fs.cwd =~= fs.cwd);
    lemma_walk_names(fs.root, Seq::<Seq<char>>::empty(), fs.cwd);
    assert(acs[0] is Root);
    assert(acs.drop_first() =~= names_comps(fs.cwd));
    lemma_walk_append(fs.root, Seq::<Seq<char>>::empty(), acs, CompV::Name(x));
    assert(seq![CompV::Name(x)][0] == CompV::Name(x));
    assert(seq![CompV::Name(x)].drop_first() =~= Seq::<CompV>::empty());
    let d = dir_at(fs.root, fs.cwd).unwrap();
    if d.contains_key(x) && d[x] is Dir {
        assert(walk(fs.root, fs.cwd.push(x), Seq::<CompV>::empty())
            == Ok::<Seq<Seq<char>>, FsError>(fs.cwd.push(x)));
    }
}

/// A `mkdir` of a plain name the cursor's directory already binds fails
/// with `AlreadyExists`; by the contract of `mkdir` the tree, the cursor
/// and the base path then stay exactly as they were.
pub proof fn lemma_mkdir_existing(fs: FsV, x: Seq<char>)
    requires
        fsv_wf(fs),
        seg_wf(x),
        dir_at(fs.root, fs.cwd).unwrap().contains_key(x),
    ensures
        spec_mkdir(fs, x) == Err::<FsV, FsError>(FsError::AlreadyExists),
{
    let acs = abs_comps(fs.cwd);
    lemma_abs_comps_wf(fs.cwd);
    lemma_join_name(fs.cwd, x);
    let red = reduce_comps(parse(spec_join(fs.path, x)));
    assert(red == acs.push(CompV::Name(x)));
    assert(red.last() == CompV::Name(x));
    assert(red.drop_last() =~= acs);
    lemma_cd_abs(fs);
}

/// Changing to `.` resolves to the very state the namespace is in: the
/// walk re-resolves the stored position and the base path is re-rendered
/// unchanged.
pub proof fn lemma_cd_dot(fs: FsV)
    requires
        fsv_wf(fs),
    ensures
        spec_cd(fs, cur_seg()) == Ok::<FsV, FsError>(fs),
{
    let acs = abs_comps(fs.cwd);
    lemma_abs_comps_wf(fs.cwd);
    lemma_parse_render(acs);
    lemma_render_first(acs);
    let rp = render(acs);
    let dot = cur_seg();
    assert(dot[0] != sep());
    assert(spec_join(fs.path, dot) == rp + seq![sep()] + dot);
    let s = rp + seq![sep()] + dot;
    assert(s[0] == rp[0] && rp[0] == sep());
    lemma_split_concat(rp, dot);
    lemma_split_nonempty(rp);
    lemma_first_sep_is(dot, 1);
    assert(split_segs(dot) =~= seq![dot]);
    assert(seq![dot].drop_first() =~= Seq::<Seq<char>>::empty());
    assert(classify_segs(Seq::<Seq<char>>::empty(), false)
        =~= Seq::<CompV>::empty());
    assert(classify_segs(seq![dot], false) =~= Seq::<CompV>::empty());
    lemma_classify_concat(split_segs(rp), seq![dot], false);
    assert(parse(s) =~= parse(rp));
    lemma_reduce_fix(acs);
    assert(Seq::<Seq<char>>::empty() + fs.cwd =~= fs.cwd);
    lemma_walk_names(fs.root, Seq::<Seq<char>>::empty(), fs.cwd);
    assert(acs[0] is Root);
    assert(acs.drop_first() =~= names_comps(fs.cwd));
    assert(spec_cd(fs, dot) == Ok::<FsV, FsError>(
        FsV { path: render(abs_comps(fs.cwd)), cwd: fs.cwd, root: fs.root },
    ));
}

/// After a `mkdir` of a plain name succeeds, changing into that name from
/// the directory the cursor was left on succeeds and lands on a directory
/// with no members.
pub proof fn lemma_mkdir_then_cd(fs: FsV, x: Seq<char>)
    requires
        fsv_wf(fs),
        seg_wf(x),
        spec_mkdir(fs, x) is Ok,
    ensures
        spec_cd(spec_mkdir(fs, x).unwrap(), x) is Ok,
        dir_at(
            spec_cd(spec_mkdir(fs, x).unwrap(), x).unwrap().root,
            spec_cd(spec_mkdir(fs, x).unwrap(), x).unwrap().cwd,
        ) == Some(Map::<Seq<char>, EntryV>::empty()),
{
    let acs = abs_comps(fs.cwd);
    lemma_abs_comps_wf(fs.cwd);
    lemma_join_name(fs.cwd, x);
    let red = reduce_comps(parse(spec_join(fs.path, x)));
    assert(red == acs.push(CompV::Name(x)));
    assert(red.last() == CompV::Name(x));
    assert(red.drop_last() =~= acs);
    // The internal cd to the rendered parent resolves to the stored position.
    lemma_cd_abs(fs);
    let fs2 = spec_cd(fs, render(acs)).unwrap();
    assert(fs2.cwd == fs.cwd && fs2.root == fs.root);
    let d = dir_at(fs.root, fs.cwd).unwrap();
    assert(!d.contains_key(x));
    let fs3 = spec_mkdir(fs, x).unwrap();
    assert(fs3.root == tree_insert(fs.root, fs.cwd, x, empty_dir()));
    assert(fs3.cwd == fs.cwd && fs3.path == render(acs));
    // Now the cd of the fresh name from fs3.
    lemma_join_name(fs.cwd, x);
    assert(reduce_comps(parse(spec_join(fs3.path, x))) == acs.push(CompV::Name(x)));
    lemma_tree_insert_dir_at(fs.root, fs.cwd, x, empty_dir());
    assert(dir_at(fs3.root, fs.cwd) == Some(d.insert(x, empty_dir())));
    // One more named step through the fresh directory.
    let pushed = acs.push(CompV::Name(x));
    assert(pushed.drop_first() =~= names_comps(fs.cwd).push(CompV::Name(x)));
    assert(names_comps(fs.cwd.push(x)) =~= names_comps(fs.cwd).push(CompV::Name(x)));
    lemma_dir_at_push(fs3.root, fs.cwd, x, Map::<Seq<char>, EntryV>::empty());
    assert(Seq::<Seq<char>>::empty() + fs.cwd.push(x) =~= fs.cwd.push(x));
    lemma_walk_names(fs3.root, Seq::<Seq<char>>::empty(), fs.cwd.push(x));
    assert(pushed[0] is Root);
    assert(pushed.drop_first() =~= names_comps(fs.cwd.push(x)));
    assert(walk(fs3.root, Seq::<Seq<char>>::empty(), pushed) == Ok::<Seq<Seq<char>>, FsError>(
        fs.cwd.push(x),
    ));
}

/// A copy of a chain of names, equal at the view level.
fn clone_names(names: &Vec<String>) -> (res: Vec<String>)
    ensures
        res.deep_view() == names.deep_view(),
{
    let mut res: Vec<String> = Vec::new();
    let mut i: usize = 0;
    while i < names.len()
        invariant
            0 <= i <= names@.len(),
            res@.len() == i,
            forall|k: int| 0 <= k < i ==> res@[k]@ == names@[k]@,
        decreases names@.len() - i,
    {
        res.push(names[i].clone());
        i = i + 1;
    }
    proof {
        assert(res.deep_view() =~= names.deep_view());
    }
    res
}

/// Binding a fresh entry inside the directory a position resolves to
/// leaves the position resolving to that directory with the binding added.
pub proof fn lemma_tree_insert_dir_at(
    m: Map<Seq<char>, EntryV>,
    names: Seq<Seq<char>>,
    leaf: Seq<char>,
    e: EntryV,
)
    requires
        dir_at(m, names) is Some,
    ensures
        dir_at(tree_insert(m, names, leaf, e), names) == Some(
            dir_at(m, names).unwrap().insert(leaf, e),
        ),
    decreases names.len(),
{
    if names.len() == 0 {
        assert(dir_at(m.insert(leaf, e), Seq::<Seq<char>>::empty()) == Some(m.insert(leaf, e)));
    } else {
        match m[names[0]] {
            EntryV::Dir { members } => {
                lemma_tree_insert_dir_at(members, names.drop_first(), leaf, e);
                let m2 = tree_insert(m, names, leaf, e);
                assert(m2.contains_key(names[0]));
                assert(m2[names[0]] == (EntryV::Dir {
                    members: tree_insert(members, names.drop_first(), leaf, e),
                }));
            },
            EntryV::File { .. } => {},
        }
    }
}

impl Fs {
    /// Creates a directory: joins `name` onto the base path, reduces the
    /// result, and splits it into a parent path and a leaf name. Fails with
    /// `EmptyName` when there is no leaf; resolves the parent with an
    /// internal `cd`, propagating its failure; fails with `AlreadyExists`
    /// when the parent already binds the leaf. On success an empty
    /// directory is added and the cursor stays at the resolved parent; on
    /// any failure tree, cursor and base path are as before the call.
    pub fn mkdir(&mut self, name: &str) -> (r: Result<(), FsError>)
        requires
            old(self).wf(),
        ensures
            final(self).wf(),
            match r {
                Ok(()) => spec_mkdir(old(self)@, name@) == Ok::<FsV, FsError>(final(self)@),
                Err(e) => final(self)@ == old(self)@ && spec_mkdir(old(self)@, name@) == Err::<
                    FsV,
                    FsError,
                >(e),
            },
    {
        let joined = self.join_base(name);
        let comps = components(joined.as_str());
        let mut red = reduce_components(&comps);
        let ghost red_v = views_of(red@);
        proof {
            lemma_parse_wf(joined@);
            lemma_reduce_names_wf(parse(joined@));
        }
        let popped = red.pop();
        let leaf = match popped {
            Some(Component::Normal(n)) => n,
            Some(_) => {
                proof {
                    assert(red_v.last() == red_v[red_v.len() - 1]);
                }
                return Err(FsError::EmptyName);
            },
            None => {
                return Err(FsError::EmptyName);
            },
        };
        proof {
            assert(red_v.last() == red_v[red_v.len() - 1]);
            assert(red_v.last() == CompV::Name(leaf@));
            assert(comp_name_wf(red_v[red_v.len() - 1]));
            assert(views_of(red@) =~= red_v.drop_last());
        }
        let parent_str = render_components(&red);
        let saved_path = self.path.clone();
        let saved_cwd = clone_names(&self.cwd);
        match self.cd(parent_str.as_str()) {
            Ok(()) => {},
            Err(e) => {
                return Err(e);
            },
        }
        let exists = self.cwd_dir().lookup(&leaf).is_some();
        if exists {
            self.path = saved_path;
            self.cwd = saved_cwd;
            return Err(FsError::AlreadyExists);
        }
        proof {
            assert(self.cwd.deep_view().skip(0) =~= self@.cwd);
        }
        let ghost root_before = self.root@;
        let ghost cwd_v = self@.cwd;
        let r = self.root.insert_dir_at(&self.cwd, 0, &leaf);
        proof {
            assert(r is Ok);
            lemma_tree_insert_dir_at(root_before, cwd_v, leaf@, empty_dir());
        }
        Ok(())
    }
}

impl Default for Fs {
    /// A fresh namespace: an empty root directory, the cursor on it, the
    /// base path at the root.
    fn default() -> (fs: Fs)
        ensures
            fs.wf(),
            fs@.root == Map::<Seq<char>, EntryV>::empty(),
            fs@.cwd == Seq::<Seq<char>>::empty(),
            fs@.path == seq![sep()],
    {
        let fs = Fs { path: "/".to_owned(), cwd: Vec::new(), root: Box::new(Dir::new()) };
        proof {
            reveal_strlit("/");
            assert(fs.cwd.deep_view() =~= Seq::<Seq<char>>::empty());
            assert(abs_comps(fs.cwd.deep_view()) =~= seq![CompV::Root]);
            assert(seq![CompV::Root].drop_last() =~= Seq::<CompV>::empty());
            assert(fs.path@ =~= seq![sep()]);
            assert(render(Seq::<CompV>::empty()) =~= Seq::<char>::empty());
            assert(render(abs_comps(fs.cwd.deep_view())) =~= seq![sep()]);
        }
        fs
    }
}

} // verus!


//! The test sandbox's paths: every destructive test writes inside one sandbox directory and
//! names its files through it, so no test builds a path by hand.
use vstd::prelude::*;
use crate::archivespec::split_char;
use crate::text::{chars_of, find_in, lemma_find_char, str_eq, string_from, string_of};

verus! {

broadcast use vstd::string::group_string_axioms;

/// The one name that makes a directory deletable as a sandbox; a directory without it is
/// never touched.
pub const MARKER: &'static str = ".flea-test-sandbox";

/// Every sandbox name starts with this, so a stray path outside the pattern is refused on the
/// name alone.
pub const PREFIX: &'static str = "flea-test-";

/// A sandbox lives under the temporary root, at least this many components deep.
pub const MIN_COMPONENTS: usize = 3;

/// `name` joined onto `base` as `PathBuf::push` joins it on Unix: an absolute name replaces the
/// base, and a separator goes between them unless the base is empty or already ends in one.
pub open spec fn join_path(base: Seq<char>, name: Seq<char>) -> Seq<char> {
    if name.len() > 0 && name[0] == '/' {
        name
    } else if base.len() == 0 || base.last() == '/' {
        base + name
    } else {
        base + seq!['/'] + name
    }
}

/// One component of a path, as `Path::components` yields it on Unix.
pub enum Component {
    RootDir,
    CurDir,
    ParentDir,
    Normal(Seq<char>),
}

/// The components the slash-separated pieces `parts` stand for: an empty piece and `.` name
/// nothing, `..` is the parent, and any other piece is a normal component.
pub open spec fn part_components(parts: Seq<Seq<char>>) -> Seq<Component>
    decreases parts.len(),
{
    if parts.len() == 0 {
        Seq::empty()
    } else {
        let p = parts[0];
        let rest = part_components(parts.drop_first());
        if p.len() == 0 || p == seq!['.'] {
            rest
        } else if p == seq!['.', '.'] {
            seq![Component::ParentDir] + rest
        } else {
            seq![Component::Normal(p)] + rest
        }
    }
}

/// The components of a path: the root for a leading slash, the current directory for a
/// leading `.` piece of a relative path, then the pieces, repeated slashes and inner `.`
/// ignored.
pub open spec fn components(s: Seq<char>) -> Seq<Component> {
    if s.len() > 0 && s[0] == '/' {
        seq![Component::RootDir] + part_components(split_char(s, '/'))
    } else if s.len() > 0 && s[0] == '.' && (s.len() == 1 || s[1] == '/') {
        seq![Component::CurDir] + part_components(split_char(s, '/').drop_first())
    } else {
        part_components(split_char(s, '/'))
    }
}

/// The shape of a path the sandbox guard lets go: absolute, at least `MIN_COMPONENTS`
/// components deep, under the temporary root component by component, and with a last
/// component that names a sandbox.
pub open spec fn removable_shape(path: Seq<char>, temp_root: Seq<char>) -> bool {
    let c = components(path);
    &&& path.len() > 0 && path[0] == '/'
    &&& c.len() >= MIN_COMPONENTS
    &&& components(temp_root).is_prefix_of(c)
    &&& c.last() matches Component::Normal(n) && PREFIX@.is_prefix_of(n)
}

/// One component, held.
enum Comp {
    RootDir,
    CurDir,
    ParentDir,
    Normal(String),
}

spec fn comp_view(c: Comp) -> Component {
    match c {
        Comp::RootDir => Component::RootDir,
        Comp::CurDir => Component::CurDir,
        Comp::ParentDir => Component::ParentDir,
        Comp::Normal(s) => Component::Normal(s@),
    }
}

spec fn comps_view(v: Seq<Comp>) -> Seq<Component> {
    v.map_values(|c: Comp| comp_view(c))
}

/// The components of the pieces of `v[pos..]`, appended to `out`.
fn push_parts(v: &Vec<char>, start: usize, out: &mut Vec<Comp>)
    requires
        start <= v.len(),
    ensures
        comps_view(final(out)@) == comps_view(old(out)@) + part_components(
            split_char(v@.skip(start as int), '/'),
        ),
{
    let n = v.len();
    let mut pos = start;
    assert(comps_view(out@) =~= comps_view(old(out)@) + Seq::<Component>::empty());
    loop
        invariant
            n == v.len(),
            start <= pos <= n,
            comps_view(out@) + part_components(split_char(v@.skip(pos as int), '/'))
                == comps_view(old(out)@) + part_components(split_char(v@.skip(start as int), '/')),
        decreases n + 1 - pos,
    {
        let j = find_in(&v, pos, n, '/');
        let ghost t = v@.skip(pos as int);
        assert(t =~= v@.subrange(pos as int, n as int));
        let ghost part = v@.subrange(pos as int, j as int);
        let ghost rest = if j < n {
            split_char(t.skip(j - pos + 1), '/')
        } else {
            Seq::empty()
        };
        assert(part =~= t.take(j - pos));
        if j == n {
            assert(part =~= t);
        }
        assert(split_char(t, '/') == seq![part] + rest);
        assert((seq![part] + rest)[0] == part);
        assert((seq![part] + rest).drop_first() =~= rest);
        let ghost before = comps_view(out@);
        if j == pos || (j == pos + 1 && v[pos] == '.') {
            assert(part.len() == 0 || part =~= seq!['.']);
        } else if j - pos == 2 && v[pos] == '.' && v[pos + 1] == '.' {
            assert(part =~= seq!['.', '.']);
            out.push(Comp::ParentDir);
            assert(comps_view(out@) =~= before + seq![Component::ParentDir]);
        } else {
            assert(part.len() != 0 && part != seq!['.']) by {
                if part == seq!['.'] {
                    assert(part.len() == 1 && part[0] == '.');
                }
            }
            assert(part != seq!['.', '.']) by {
                if part == seq!['.', '.'] {
                    assert(part.len() == 2 && part[0] == '.' && part[1] == '.');
                }
            }
            out.push(Comp::Normal(string_of(&v, pos, j)));
            assert(comps_view(out@) =~= before + seq![Component::Normal(part)]);
        }
        if j == n {
            assert(part_components(rest) =~= Seq::<Component>::empty());
            assert(comps_view(out@) =~= comps_view(out@) + part_components(rest));
            return;
        }
        assert(t.skip(j - pos + 1) =~= v@.skip(j + 1));
        pos = j + 1;
    }
}

/// The components of the path `s`.
fn components_of(s: &str) -> (r: Vec<Comp>)
    ensures
        comps_view(r@) == components(s@),
{
    let v = chars_of(s);
    let mut out: Vec<Comp> = Vec::new();
    assert(v@.skip(0) =~= v@);
    if v.len() > 0 && v[0] == '/' {
        out.push(Comp::RootDir);
        push_parts(&v, 0, &mut out);
        assert(comps_view(out@) =~= components(s@));
    } else if v.len() > 0 && v[0] == '.' && (v.len() == 1 || v[1] == '/') {
        out.push(Comp::CurDir);
        let ghost t = v@;
        if v.len() == 1 {
            proof {
                lemma_find_char(t, '/', 1);
            }
            assert(split_char(t, '/') == seq![t]);
            assert(split_char(t, '/').drop_first() =~= Seq::<Seq<char>>::empty());
            assert(comps_view(out@) =~= components(s@));
        } else {
            proof {
                lemma_find_char(t, '/', 1);
                assert(split_char(t, '/').drop_first() =~= split_char(t.skip(2), '/'));
            }
            push_parts(&v, 2, &mut out);
            assert(comps_view(out@) =~= components(s@));
        }
    } else {
        push_parts(&v, 0, &mut out);
        assert(comps_view(out@) =~= components(s@));
    }
    out
}

/// Whether two components are the same.
fn same_comp(a: &Comp, b: &Comp) -> (r: bool)
    ensures
        r == (comp_view(*a) == comp_view(*b)),
{
    match (a, b) {
        (Comp::RootDir, Comp::RootDir) => true,
        (Comp::CurDir, Comp::CurDir) => true,
        (Comp::ParentDir, Comp::ParentDir) => true,
        (Comp::Normal(x), Comp::Normal(y)) => str_eq(x.as_str(), y.as_str()),
        _ => false,
    }
}

/// Whether `name` starts with `PREFIX`.
fn starts_with_prefix(name: &String) -> (r: bool)
    ensures
        r == PREFIX@.is_prefix_of(name@),
{
    let p = chars_of(PREFIX);
    let n = chars_of(name.as_str());
    if p.len() > n.len() {
        return false;
    }
    let mut k: usize = 0;
    while k < p.len()
        invariant
            p@ == PREFIX@,
            n@ == name@,
            p.len() <= n.len(),
            k <= p.len(),
            forall|i: int| 0 <= i < k ==> p@[i] == n@[i],
        decreases p.len() - k,
    {
        if p[k] != n[k] {
            return false;
        }
        k = k + 1;
    }
    true
}

/// Whether `path` has the shape of a sandbox under `temp_root`; the marker inside it is
/// checked on disk by the caller.
pub fn has_sandbox_shape(path: &str, temp_root: &str) -> (r: bool)
    ensures
        r == removable_shape(path@, temp_root@),
{
    proof {
        reveal_strlit("flea-test-");
    }
    let v = chars_of(path);
    if !(v.len() > 0 && v[0] == '/') {
        return false;
    }
    let c = components_of(path);
    if c.len() < MIN_COMPONENTS {
        return false;
    }
    let t = components_of(temp_root);
    if t.len() > c.len() {
        return false;
    }
    let mut k: usize = 0;
    while k < t.len()
        invariant
            t.len() <= c.len(),
            k <= t.len(),
            comps_view(c@) == components(path@),
            comps_view(t@) == components(temp_root@),
            forall|i: int| 0 <= i < k ==> comp_view(t@[i]) == comp_view(c@[i]),
        decreases t.len() - k,
    {
        if !same_comp(&t[k], &c[k]) {
            assert(comps_view(t@)[k as int] != comps_view(c@)[k as int]);
            assert(!comps_view(t@).is_prefix_of(comps_view(c@))) by {
                if comps_view(t@).is_prefix_of(comps_view(c@)) {
                    assert(comps_view(c@).subrange(0, t.len() as int)[k as int] == comps_view(c@)[k as int]);
                }
            }
            return false;
        }
        k = k + 1;
    }
    assert(comps_view(t@).is_prefix_of(comps_view(c@))) by {
        assert forall|i: int| 0 <= i < t.len() implies comps_view(t@)[i] == comps_view(c@)[i] by {
            assert(comp_view(t@[i]) == comp_view(c@[i]));
        }
    }
    match &c[c.len() - 1] {
        Comp::Normal(n) => starts_with_prefix(n),
        _ => false,
    }
}

/// One sandbox directory.
pub struct TestDir {
    path: String,
}

impl TestDir {
    /// The sandbox's own path.
    pub closed spec fn dir(&self) -> Seq<char> {
        self.path@
    }

    /// The sandbox at `path`, once the directory and its marker exist there.
    pub fn at(path: String) -> (r: TestDir)
        ensures
            r.dir() == path@,
    {
        TestDir { path }
    }

    /// The sandbox's path.
    pub fn path(&self) -> (r: &str)
        ensures
            r@ == self.dir(),
    {
        self.path.as_str()
    }

    /// The path of `name` inside the sandbox.
    pub fn join(&self, name: &str) -> (r: String)
        ensures
            r@ == join_path(self.dir(), name@),
    {
        let base = chars_of(self.path.as_str());
        let n = chars_of(name);
        if n.len() > 0 && n[0] == '/' {
            return name.to_owned();
        }
        let mut out = base.clone();
        if base.len() > 0 && base[base.len() - 1] != '/' {
            out.push('/');
        }
        let ghost head = out@;
        let mut k: usize = 0;
        while k < n.len()
            invariant
                k <= n.len(),
                out@ == head + n@.take(k as int),
            decreases n.len() - k,
        {
            out.push(n[k]);
            assert(n@.take(k + 1) =~= n@.take(k as int).push(n@[k as int]));
            k = k + 1;
        }
        assert(n@.take(n@.len() as int) =~= n@);
        assert(out@ =~= join_path(self.path@, name@));
        string_from(&out)
    }
}

} // verus!

use vstd::prelude::*;
use vstd::string::StrSliceExecFns;

verus! {

broadcast use vstd::string::group_string_axioms;

// ---------------------------------------------------------------------------
// The path model: paths are sequences of characters, `/` separates components.
// ---------------------------------------------------------------------------

/// Index of the first `/` in `s` at or after `i`, or `s.len()` when there is none.
pub open spec fn first_slash_from(s: Seq<char>, i: int) -> int
    decreases s.len() - i,
{
    if i >= s.len() {
        s.len() as int
    } else if s[i] == '/' {
        i
    } else {
        first_slash_from(s, i + 1)
    }
}

/// Index of the first `/` in `s`, or `s.len()` when there is none.
pub open spec fn first_slash(s: Seq<char>) -> int {
    first_slash_from(s, 0)
}

/// Index of the last `/` in `s` strictly before position `i`, or `-1` when there is none.
pub open spec fn last_slash_before(s: Seq<char>, i: int) -> int
    decreases i,
{
    if i <= 0 {
        -1
    } else if s[i - 1] == '/' {
        i - 1
    } else {
        last_slash_before(s, i - 1)
    }
}

/// `s` without its trailing `/` characters.
pub open spec fn trim_end_slashes(s: Seq<char>) -> Seq<char>
    decreases s.len(),
{
    if s.len() > 0 && s.last() == '/' {
        trim_end_slashes(s.drop_last())
    } else {
        s
    }
}

/// The single-character sequence `/`.
pub open spec fn root_path() -> Seq<char> {
    seq!['/']
}

/// The single-character sequence `.`.
pub open spec fn dot() -> Seq<char> {
    seq!['.']
}

/// The two-character sequence `..`.
pub open spec fn dot_dot() -> Seq<char> {
    seq!['.', '.']
}

pub proof fn lemma_first_slash_from(s: Seq<char>, i: int)
    requires
        0 <= i <= s.len(),
    ensures
        i <= first_slash_from(s, i) <= s.len(),
        forall|j: int| i <= j < first_slash_from(s, i) ==> s[j] != '/',
        first_slash_from(s, i) < s.len() ==> s[first_slash_from(s, i)] == '/',
    decreases s.len() - i,
{
    if i < s.len() && s[i] != '/' {
        lemma_first_slash_from(s, i + 1);
    }
}

/// The components of a path, in order: the text between `/` separators, where
/// empty components and `.` components are left out.
pub open spec fn components(s: Seq<char>) -> Seq<Seq<char>>
    decreases s.len(),
{
    if s.len() == 0 {
        Seq::empty()
    } else {
        let i = first_slash(s);
        let part = s.subrange(0, i);
        let rest = if i < s.len() {
            s.subrange(i + 1, s.len() as int)
        } else {
            Seq::empty()
        };
        proof {
            lemma_first_slash_from(s, 0);
        }
        if part.len() == 0 || part == dot() {
            components(rest)
        } else {
            seq![part] + components(rest)
        }
    }
}

/// How `split_parent` divides a path into the path of its parent directory and
/// the last name in it.
pub open spec fn split_parent_spec(p: Seq<char>) -> (Seq<char>, Seq<char>) {
    let t = trim_end_slashes(p);
    if t.len() == 0 || t == root_path() {
        (root_path(), Seq::empty())
    } else {
        let pos = last_slash_before(t, t.len() as int);
        if pos == 0 {
            (root_path(), t.subrange(1, t.len() as int))
        } else if pos > 0 {
            (t.subrange(0, pos), t.subrange(pos + 1, t.len() as int))
        } else {
            (dot(), t)
        }
    }
}

// ---------------------------------------------------------------------------
// Lemmas about the model.
// ---------------------------------------------------------------------------

pub proof fn lemma_trim_end_slashes(s: Seq<char>)
    ensures
        trim_end_slashes(s).len() <= s.len(),
        trim_end_slashes(s) == s.subrange(0, trim_end_slashes(s).len() as int),
        trim_end_slashes(s).len() > 0 ==> trim_end_slashes(s).last() != '/',
        forall|j: int| trim_end_slashes(s).len() <= j < s.len() ==> s[j] == '/',
    decreases s.len(),
{
    if s.len() > 0 && s.last() == '/' {
        lemma_trim_end_slashes(s.drop_last());
        let t = trim_end_slashes(s.drop_last());
        assert(t == s.subrange(0, t.len() as int));
        assert forall|j: int| t.len() <= j < s.len() implies s[j] == '/' by {
            if j < s.len() - 1 {
                assert(s.drop_last()[j] == s[j]);
            }
        }
    } else {
        assert(s == s.subrange(0, s.len() as int));
    }
}

pub proof fn lemma_last_slash_before(s: Seq<char>, i: int)
    requires
        0 <= i <= s.len(),
    ensures
        -1 <= last_slash_before(s, i) < i,
        last_slash_before(s, i) >= 0 ==> s[last_slash_before(s, i)] == '/',
        forall|j: int| last_slash_before(s, i) < j < i ==> s[j] != '/',
    decreases i,
{
    if i > 0 && s[i - 1] != '/' {
        lemma_last_slash_before(s, i - 1);
    }
}

/// A component is never empty, never `.`, and holds no `/`.
pub proof fn lemma_components_well_formed(s: Seq<char>)
    ensures
        forall|k: int|
            0 <= k < components(s).len() ==> {
                &&& (#[trigger] components(s)[k]).len() > 0
                &&& components(s)[k] != dot()
                &&& forall|j: int| 0 <= j < components(s)[k].len() ==> components(s)[k][j] != '/'
            },
    decreases s.len(),
{
    if s.len() > 0 {
        lemma_first_slash_from(s, 0);
        let i = first_slash(s);
        let rest = if i < s.len() {
            s.subrange(i + 1, s.len() as int)
        } else {
            Seq::empty()
        };
        lemma_components_well_formed(rest);
        let part = s.subrange(0, i);
        if !(part.len() == 0 || part == dot()) {
            assert forall|k: int| 0 <= k < components(s).len() implies {
                &&& (#[trigger] components(s)[k]).len() > 0
                &&& components(s)[k] != dot()
                &&& forall|j: int| 0 <= j < components(s)[k].len() ==> components(s)[k][j] != '/'
            } by {
                if k > 0 {
                    assert(components(s)[k] == components(rest)[k - 1]);
                }
            }
        }
    }
}

/// A path that starts with `/` has the components of the path that follows it.
pub proof fn lemma_components_leading_slash(s: Seq<char>)
    requires
        s.len() > 0,
        s[0] == '/',
    ensures
        components(s) == components(s.subrange(1, s.len() as int)),
{
    lemma_first_slash_from(s, 0);
    assert(s.subrange(0, 0) =~= Seq::<char>::empty());
}

proof fn lemma_first_slash_at(s: Seq<char>, i: int, j: int)
    requires
        0 <= i <= j <= s.len(),
        forall|k: int| i <= k < j ==> s[k] != '/',
        j < s.len() ==> s[j] == '/',
    ensures
        first_slash_from(s, i) == j,
    decreases j - i,
{
    if i < j {
        lemma_first_slash_at(s, i + 1, j);
    }
}

/// Joining two paths with a `/` joins their components.
pub proof fn lemma_components_join(a: Seq<char>, b: Seq<char>)
    ensures
        components(a + seq!['/'] + b) == components(a) + components(b),
    decreases a.len(),
{
    let s = a + seq!['/'] + b;
    if a.len() == 0 {
        assert(s =~= seq!['/'] + b);
        lemma_components_leading_slash(s);
        assert(s.subrange(1, s.len() as int) =~= b);
        assert(components(a) =~= Seq::<Seq<char>>::empty());
        assert(components(a) + components(b) =~= components(b));
    } else {
        lemma_first_slash_from(a, 0);
        let i = first_slash(a);
        assert forall|k: int| 0 <= k < i implies s[k] != '/' by {
            assert(s[k] == a[k]);
        }
        if i < a.len() {
            assert(s[i] == a[i]);
        } else {
            assert(s[i] == '/');
        }
        lemma_first_slash_at(s, 0, i);
        assert(s.subrange(0, i) =~= a.subrange(0, i));
        let part = a.subrange(0, i);
        if i < a.len() {
            let ar = a.subrange(i + 1, a.len() as int);
            assert(s.subrange(i + 1, s.len() as int) =~= ar + seq!['/'] + b);
            lemma_components_join(ar, b);
            if !(part.len() == 0 || part == dot()) {
                assert(seq![part] + (components(ar) + components(b)) =~= (seq![part] + components(ar))
                    + components(b));
            }
        } else {
            assert(s.subrange(i + 1, s.len() as int) =~= b);
            assert(a.subrange(0, i) =~= a);
            assert(components(Seq::<char>::empty()) =~= Seq::<Seq<char>>::empty());
            if !(part.len() == 0 || part == dot()) {
                assert(components(a) =~= seq![part]);
            } else {
                assert(components(a) =~= Seq::<Seq<char>>::empty());
            }
            assert(components(a) + components(b) =~= if part.len() == 0 || part == dot() {
                components(b)
            } else {
                seq![part] + components(b)
            });
        }
    }
}

/// Trailing `/` do not change the components of a path.
pub proof fn lemma_components_trim_end(s: Seq<char>)
    ensures
        components(s) == components(trim_end_slashes(s)),
    decreases s.len(),
{
    if s.len() > 0 && s.last() == '/' {
        let t = s.drop_last();
        assert(s =~= t + seq!['/'] + Seq::<char>::empty());
        lemma_components_join(t, Seq::<char>::empty());
        assert(components(Seq::<char>::empty()) =~= Seq::<Seq<char>>::empty());
        assert(components(t) + Seq::<Seq<char>>::empty() =~= components(t));
        lemma_components_trim_end(t);
    }
}

/// A name with no `/` that is neither empty nor `.` is a single component.
pub proof fn lemma_components_single(name: Seq<char>)
    requires
        name.len() > 0,
        name != dot(),
        forall|j: int| 0 <= j < name.len() ==> name[j] != '/',
    ensures
        components(name) == seq![name],
{
    lemma_first_slash_at(name, 0, name.len() as int);
    assert(name.subrange(0, name.len() as int) =~= name);
    assert(components(Seq::<char>::empty()) =~= Seq::<Seq<char>>::empty());
    assert(seq![name] + Seq::<Seq<char>>::empty() =~= seq![name]);
}

/// Appending only `/` characters does not change the components of a path.
pub proof fn lemma_components_slash_tail(x: Seq<char>, tail: Seq<char>)
    requires
        forall|j: int| 0 <= j < tail.len() ==> tail[j] == '/',
    ensures
        components(x + tail) == components(x),
{
    if tail.len() == 0 {
        assert(x + tail =~= x);
    } else {
        let rest = tail.drop_first();
        assert(x + tail =~= x + seq!['/'] + rest);
        lemma_components_join(x, rest);
        lemma_components_trim_end(rest);
        lemma_trim_end_slashes(rest);
        let tr = trim_end_slashes(rest);
        if tr.len() > 0 {
            assert(tr.last() == rest[tr.len() - 1]);
        }
        assert(tr =~= Seq::<char>::empty());
        assert(components(Seq::<char>::empty()) =~= Seq::<Seq<char>>::empty());
        assert(components(x) + Seq::<Seq<char>>::empty() =~= components(x));
    }
}

/// A trailing `/.` does not change the components of a path.
pub proof fn lemma_components_dot_suffix(a: Seq<char>)
    ensures
        components(a + seq!['/', '.']) == components(a),
{
    assert(a + seq!['/', '.'] =~= a + seq!['/'] + dot());
    lemma_components_join(a, dot());
    lemma_first_slash_at(dot(), 0, 1);
    assert(dot().subrange(0, 1) =~= dot());
    assert(components(Seq::<char>::empty()) =~= Seq::<Seq<char>>::empty());
    assert(components(dot()) =~= Seq::<Seq<char>>::empty());
    assert(components(a) + Seq::<Seq<char>>::empty() =~= components(a));
}

// ---------------------------------------------------------------------------
// Executable code.
// ---------------------------------------------------------------------------

/// The characters of `s`, in order.
pub(crate) fn chars_of(s: &str) -> (v: Vec<char>)
    ensures
        v@ == s@,
{
    let mut v: Vec<char> = Vec::new();
    for c in it: s.chars()
        invariant
            v@ == it.seq().take(it.index() as int),
            it.seq() == s@,
    {
        v.push(c);
    }
    v
}

/// Splits `path` into the path of its parent directory and the last name in it.
/// Trailing `/` are ignored; a path with no `/` has the parent `.`; the root has
/// the parent `/` and an empty name.
pub fn split_parent(path: &str) -> (r: (&str, &str))
    ensures
        (r.0@, r.1@) == split_parent_spec(path@),
{
    let cs = chars_of(path);
    let ghost s = path@;
    let mut e: usize = cs.len();
    proof {
        lemma_trim_end_slashes(s);
        assert(s.subrange(0, e as int) =~= s);
    }
    while e > 0 && cs[e - 1] == '/'
        invariant
            e <= cs@.len(),
            cs@ == s,
            trim_end_slashes(s) == trim_end_slashes(s.subrange(0, e as int)),
        decreases e,
    {
        assert(s.subrange(0, e as int).drop_last() =~= s.subrange(0, e - 1));
        e = e - 1;
    }
    let ghost t = s.subrange(0, e as int);
    assert(trim_end_slashes(t) == t);
    proof {
        reveal_strlit("/");
        reveal_strlit("");
        reveal_strlit(".");
    }
    if e == 0 || (e == 1 && cs[0] == '/') {
        assert(t.len() == 0 || t =~= root_path());
        return ("/", "");
    }
    assert(t != root_path());
    let mut j: usize = e;
    while j > 0 && cs[j - 1] != '/'
        invariant
            j <= e <= cs@.len(),
            cs@ == s,
            t == s.subrange(0, e as int),
            last_slash_before(t, e as int) == last_slash_before(t, j as int),
        decreases j,
    {
        j = j - 1;
    }
    if j == 0 {
        assert(last_slash_before(t, e as int) == -1);
        (".", path.substring_char(0, e))
    } else if j == 1 {
        assert(last_slash_before(t, e as int) == 0);
        ("/", path.substring_char(1, e))
    } else {
        let pos = j - 1;
        assert(last_slash_before(t, e as int) == pos);
        assert(t.subrange(0, pos as int) =~= s.subrange(0, pos as int));
        assert(t.subrange(pos + 1, e as int) =~= s.subrange(pos + 1, e as int));
        (path.substring_char(0, pos), path.substring_char(pos + 1, e))
    }
}

/// Walks over the components of a path, one at a time.
pub struct PathCursor<'a> {
    rest: &'a str,
}

impl<'a> PathCursor<'a> {
    /// The components that the cursor has yet to hand out.
    pub closed spec fn remaining(&self) -> Seq<Seq<char>> {
        components(self.rest@)
    }

    /// A cursor over the components of `path`.
    pub fn new(path: &'a str) -> (c: Self)
        ensures
            c.remaining() == components(path@),
    {
        Self { rest: path }
    }

    /// Hands out the next component, or `None` when there is none left.
    pub fn next(&mut self) -> (r: Option<&'a str>)
        ensures
            old(self).remaining().len() == 0 ==> r is None && final(self).remaining().len() == 0,
            old(self).remaining().len() > 0 ==> r is Some && r->0@ == old(self).remaining()[0]
                && final(self).remaining() == old(self).remaining().drop_first(),
    {
        proof {
            reveal_strlit("");
        }
        loop
            invariant
                components(self.rest@) == components(old(self).rest@),
            decreases self.rest@.len(),
        {
            let cs = chars_of(self.rest);
            let n = cs.len();
            let ghost s = self.rest@;
            if n == 0 {
                return None;
            }
            let mut i: usize = 0;
            proof {
                lemma_first_slash_from(s, 0);
            }
            while i < n && cs[i] != '/'
                invariant
                    0 <= i <= n,
                    n == cs@.len(),
                    cs@ == s,
                    first_slash_from(s, i as int) == first_slash(s),
                decreases n - i,
            {
                i = i + 1;
            }
            proof {
                lemma_first_slash_from(s, 0);
            }
            let part = self.rest.substring_char(0, i);
            if i < n {
                self.rest = self.rest.substring_char(i + 1, n);
            } else {
                proof {
                    reveal_strlit("");
                }
                self.rest = "";
                assert(self.rest@.len() == 0);
            }
            let ghost rest_s = if i < n {
                s.subrange(i + 1, n as int)
            } else {
                Seq::<char>::empty()
            };
            assert(self.rest@ =~= rest_s);
            assert(first_slash(s) == i);
            assert(part@ =~= s.subrange(0, i as int));
            if i == 0 || (i == 1 && cs[0] == '.') {
                assert(part@.len() == 0 || part@ =~= dot());
                assert(components(s) == components(rest_s));
                continue ;
            }
            assert(part@ != dot()) by {
                if part@ == dot() {
                    assert(part@.len() == 1);
                    assert(part@[0] == cs@[0]);
                    assert(dot()[0] == '.');
                }
            }
            assert(components(s) == seq![part@] + components(rest_s));
            assert((seq![part@] + components(rest_s)).drop_first() =~= components(rest_s));
            return Some(part);
        }
    }

    /// Calls `next` until it gives `None` and returns what it handed out, in
    /// order: exactly the components the cursor had left, after which none
    /// remain.
    pub fn collect(&mut self) -> (parts: Vec<&'a str>)
        ensures
            parts@.map_values(|p: &str| p@) == old(self).remaining(),
            final(self).remaining().len() == 0,
    {
        let mut parts: Vec<&'a str> = Vec::new();
        loop
            invariant
                parts@.map_values(|p: &str| p@) + self.remaining() == old(self).remaining(),
            decreases self.remaining().len(),
        {
            let ghost before = self.remaining();
            match self.next() {
                Some(part) => {
                    let ghost prev = parts@.map_values(|p: &str| p@);
                    parts.push(part);
                    assert(parts@.map_values(|p: &str| p@) =~= prev.push(part@));
                    assert(prev.push(part@) + self.remaining() =~= prev + before);
                },
                None => {
                    assert(parts@.map_values(|p: &str| p@) + self.remaining() =~= parts@.map_values(
                        |p: &str| p@,
                    ));
                    return parts;
                },
            }
        }
    }
}

} // verus!

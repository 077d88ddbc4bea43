//! Filesystem paths as text, with the joining and splitting rules of Unix
//! paths.

use vstd::prelude::*;

use crate::text::push_char;

verus! {

/// `b` joined onto `a`: an absolute `b` replaces `a`; otherwise `b` follows
/// `a`, with one `/` between them unless `a` is empty or ends with one.
pub open spec fn join_path(a: Seq<char>, b: Seq<char>) -> Seq<char> {
    if b.len() > 0 && b[0] == '/' {
        b
    } else if a.len() == 0 {
        b
    } else if a.last() == '/' {
        a + b
    } else {
        a + seq!['/'] + b
    }
}

/// Joins `b` onto `a`, as `Path::join` does.
pub fn join(a: &str, b: &str) -> (r: String)
    ensures
        r@ == join_path(a@, b@),
{
    let bv = crate::text::chars_of(b);
    if bv.len() > 0 && bv[0] == '/' {
        return String::from_str(b);
    }
    let av = crate::text::chars_of(a);
    let mut s = String::from_str(a);
    if av.len() > 0 && av[av.len() - 1] != '/' {
        push_char(&mut s, '/');
    }
    s.append(b);
    s
}

/// A path component is kept unless it is empty or `.`.
pub open spec fn keep_component(c: Seq<char>) -> bool {
    c.len() > 0 && c != seq!['.']
}

/// `done` with the component `cur` added if it is kept.
pub open spec fn flush(done: Seq<Seq<char>>, cur: Seq<char>) -> Seq<Seq<char>> {
    if keep_component(cur) {
        done.push(cur)
    } else {
        done
    }
}

/// The components finished so far, and the one being read, after reading
/// the characters of `p`.
pub open spec fn split_state(p: Seq<char>) -> (Seq<Seq<char>>, Seq<char>)
    decreases p.len(),
{
    if p.len() == 0 {
        (Seq::empty(), Seq::empty())
    } else {
        let (done, cur) = split_state(p.drop_last());
        if p.last() == '/' {
            (flush(done, cur), Seq::empty())
        } else {
            (done, cur.push(p.last()))
        }
    }
}

/// The components of `p`: the parts between `/`, without empty ones and
/// `.`.
pub open spec fn components(p: Seq<char>) -> Seq<Seq<char>> {
    let (done, cur) = split_state(p);
    flush(done, cur)
}

/// Whether a component is kept.
fn keeps(cur: &Vec<char>) -> (r: bool)
    ensures
        r == keep_component(cur@),
{
    if cur.len() == 0 {
        return false;
    }
    if cur.len() == 1 && cur[0] == '.' {
        assert(cur@ =~= seq!['.']);
        return false;
    }
    proof {
        if cur@ == seq!['.'] {
            assert(cur@.len() == 1);
        }
    }
    true
}

/// The components of `p`.
pub fn split_components(p: &str) -> (r: Vec<String>)
    ensures
        r@.map_values(|s: String| s@) == components(p@),
{
    let v = crate::text::chars_of(p);
    let mut done: Vec<String> = Vec::new();
    let mut cur: Vec<char> = Vec::new();
    let mut i: usize = 0;
    while i < v.len()
        invariant
            i <= v.len(),
            v@ == p@,
            (done@.map_values(|s: String| s@), cur@) == split_state(p@.take(i as int)),
        decreases v.len() - i,
    {
        let c = v[i];
        assert(p@.take(i + 1).drop_last() =~= p@.take(i as int));
        assert(p@.take(i + 1).last() == c);
        if c == '/' {
            if keeps(&cur) {
                let ghost before = done@;
                done.push(crate::text::string_of(&cur));
                assert(done@.map_values(|s: String| s@) =~= before.map_values(|s: String| s@).push(cur@));
            }
            cur = Vec::new();
        } else {
            cur.push(c);
        }
        i = i + 1;
    }
    assert(p@.take(i as int) =~= p@);
    if keeps(&cur) {
        let ghost before = done@;
        done.push(crate::text::string_of(&cur));
        assert(done@.map_values(|s: String| s@) =~= before.map_values(|s: String| s@).push(cur@));
    }
    done
}

} // verus!

//! Unix paths as `std::path::Path` reads them: their components, and when
//! one path lies under another.
use vstd::prelude::*;
use crate::text::{chars_equal, chars_of};

verus! {

/// A segment between separators as a component: empty segments and `.` are
/// no component of their own.
pub open spec fn segment_part(segment: Seq<char>) -> Seq<Seq<char>> {
    if segment.len() == 0 || segment == seq!['.'] {
        Seq::empty()
    } else {
        seq![segment]
    }
}

/// The components after the root of `s`, the segment read so far being `cur`.
pub open spec fn parts_from(s: Seq<char>, cur: Seq<char>) -> Seq<Seq<char>>
    decreases s.len(),
{
    if s.len() == 0 {
        segment_part(cur)
    } else if s[0] == '/' {
        segment_part(cur) + parts_from(s.drop_first(), Seq::empty())
    } else {
        parts_from(s.drop_first(), cur.push(s[0]))
    }
}

/// The path is absolute: it has a root.
pub open spec fn has_root(s: Seq<char>) -> bool {
    s.len() > 0 && s[0] == '/'
}

/// A relative path that starts with `.` keeps that `.` as its first
/// component.
pub open spec fn leading_cur_dir(s: Seq<char>) -> bool {
    !has_root(s) && s.len() > 0 && s[0] == '.' && (s.len() == 1 || s[1] == '/')
}

/// The components of a path (`Path::components`): the root as `/`, a leading
/// `.` as `.`, then every other segment, `..` included.
pub open spec fn path_components(s: Seq<char>) -> Seq<Seq<char>> {
    (if has_root(s) {
        seq![seq!['/']]
    } else {
        Seq::empty()
    }) + (if leading_cur_dir(s) {
        seq![seq!['.']]
    } else {
        Seq::empty()
    }) + parts_from(s, Seq::empty())
}

/// `path` lies under `base` (`Path::starts_with`): the components of `base`
/// begin those of `path`.
pub open spec fn path_under(path: Seq<char>, base: Seq<char>) -> bool {
    let p = path_components(path);
    let b = path_components(base);
    b.len() <= p.len() && p.take(b.len() as int) == b
}

/// Splitting at a separator: the parts of `a/b` are those of `a`, then those
/// of `b`.
proof fn lemma_parts_concat(a: Seq<char>, b: Seq<char>, cur: Seq<char>)
    ensures
        parts_from(a + seq!['/'] + b, cur) == parts_from(a, cur) + parts_from(b, Seq::empty()),
    decreases a.len(),
{
    let s = a + seq!['/'] + b;
    if a.len() == 0 {
        assert(s.drop_first() =~= b);
        assert(segment_part(cur) + parts_from(b, Seq::empty()) =~= parts_from(a, cur) + parts_from(b, Seq::empty()));
    } else {
        assert(s.drop_first() =~= a.drop_first() + seq!['/'] + b);
        assert(s[0] == a[0]);
        if a[0] == '/' {
            lemma_parts_concat(a.drop_first(), b, Seq::empty());
            assert(segment_part(cur) + (parts_from(a.drop_first(), Seq::empty()) + parts_from(
                b,
                Seq::empty(),
            )) =~= segment_part(cur) + parts_from(a.drop_first(), Seq::empty()) + parts_from(
                b,
                Seq::empty(),
            ));
        } else {
            lemma_parts_concat(a.drop_first(), b, cur.push(a[0]));
        }
    }
}

/// Every path lies under itself.
pub proof fn lemma_path_under_itself(path: Seq<char>)
    ensures
        path_under(path, path),
{
    assert(path_components(path).take(path_components(path).len() as int) =~= path_components(
        path,
    ));
}

/// A path joined under a directory lies under that directory, and its
/// components are the directory's followed by those of the joined part; so an
/// asset path resolved under the asset root passes the containment check.
pub proof fn lemma_joined_path_under(base: Seq<char>, relative: Seq<char>)
    requires
        base.len() > 0,
    ensures
        path_components(base + seq!['/'] + relative) == path_components(base) + parts_from(
            relative,
            Seq::empty(),
        ),
        path_under(base + seq!['/'] + relative, base),
{
    let s = base + seq!['/'] + relative;
    assert(s[0] == base[0]);
    if base.len() >= 2 {
        assert(s[1] == base[1]);
    }
    assert(has_root(s) == has_root(base));
    assert(leading_cur_dir(s) == leading_cur_dir(base));
    lemma_parts_concat(base, relative, Seq::empty());
    let p = path_components(s);
    let b = path_components(base);
    assert(p =~= b + parts_from(relative, Seq::empty()));
    assert(p.take(b.len() as int) =~= b);
}

/// The components of a path.
pub fn components(path: &str) -> (parts: Vec<Vec<char>>)
    ensures
        parts@.len() == path_components(path@).len(),
        forall|i: int| 0 <= i < parts@.len() ==> #[trigger] parts@[i]@ == path_components(path@)[i],
{
    let s = chars_of(path);
    let mut parts: Vec<Vec<char>> = Vec::new();
    let ghost mut heads: Seq<Seq<char>> = Seq::empty();
    if s.len() > 0 && s[0] == '/' {
        parts.push(vec!['/']);
        proof {
            heads = seq![seq!['/']];
        }
    } else if s.len() > 0 && s[0] == '.' && (s.len() == 1 || s[1] == '/') {
        parts.push(vec!['.']);
        proof {
            heads = seq![seq!['.']];
        }
    }
    proof {
        assert(heads =~= (if has_root(s@) {
            seq![seq!['/']]
        } else {
            Seq::empty()
        }) + (if leading_cur_dir(s@) {
            seq![seq!['.']]
        } else {
            Seq::empty()
        }));
        assert(s@.skip(0) =~= s@);
    }
    let mut cur: Vec<char> = Vec::new();
    let mut i: usize = 0;
    while i < s.len()
        invariant
            i <= s@.len(),
            parts@.len() >= heads.len(),
            forall|k: int| 0 <= k < heads.len() ==> #[trigger] parts@[k]@ == heads[k],
            heads + parts_from(s@, Seq::empty()) == heads + Seq::new(
                (parts@.len() - heads.len()) as nat,
                |k: int| parts@[k + heads.len()]@,
            ) + parts_from(s@.skip(i as int), cur@),
        decreases s.len() - i,
    {
        let ghost before = Seq::new(
            (parts@.len() - heads.len()) as nat,
            |k: int| parts@[k + heads.len()]@,
        );
        let ghost rest = s@.skip(i as int);
        assert(rest.drop_first() =~= s@.skip(i + 1));
        if s[i] == '/' {
            let ghost part = segment_part(cur@);
            let ghost old_cur = cur@;
            if cur.len() > 0 && !(cur.len() == 1 && cur[0] == '.') {
                proof {
                    assert(cur@ != seq!['.']);
                }
                parts.push(cur);
            } else {
                proof {
                    if cur@.len() == 1 {
                        assert(cur@ =~= seq!['.']);
                    }
                }
            }
            cur = Vec::new();
            proof {
                let after = Seq::new(
                    (parts@.len() - heads.len()) as nat,
                    |k: int| parts@[k + heads.len()]@,
                );
                assert(after =~= before + part);
                assert(before + parts_from(rest, old_cur) == before + (part + parts_from(
                    s@.skip(i + 1),
                    Seq::empty(),
                )));
                assert(before + (part + parts_from(s@.skip(i + 1), Seq::empty())) =~= after
                    + parts_from(s@.skip(i + 1), Seq::empty()));
            }
        } else {
            let ghost old_cur = cur@;
            cur.push(s[i]);
            proof {
                assert(parts_from(rest, old_cur) == parts_from(s@.skip(i + 1), cur@));
            }
        }
        i += 1;
    }
    let ghost before = Seq::new(
        (parts@.len() - heads.len()) as nat,
        |k: int| parts@[k + heads.len()]@,
    );
    let ghost last = segment_part(cur@);
    assert(s@.skip(i as int) =~= Seq::<char>::empty());
    if cur.len() > 0 && !(cur.len() == 1 && cur[0] == '.') {
        proof {
            assert(cur@ != seq!['.']);
        }
        parts.push(cur);
    } else {
        proof {
            if cur@.len() == 1 {
                assert(cur@ =~= seq!['.']);
            }
        }
    }
    proof {
        let after = Seq::new(
            (parts@.len() - heads.len()) as nat,
            |k: int| parts@[k + heads.len()]@,
        );
        assert(after =~= before + last);
        let all = heads + after;
        assert(all =~= path_components(path@));
        assert forall|k: int| 0 <= k < parts@.len() implies #[trigger] parts@[k]@ == all[k] by {
            if k >= heads.len() {
                assert(after[k - heads.len()] == parts@[k]@);
            }
        }
    }
    parts
}

/// Whether `path` lies under `base`, component by component
/// (`Path::starts_with`).
pub fn path_starts_with(path: &str, base: &str) -> (r: bool)
    ensures
        r == path_under(path@, base@),
{
    let p = components(path);
    let b = components(base);
    if b.len() > p.len() {
        return false;
    }
    let mut i: usize = 0;
    while i < b.len()
        invariant
            b@.len() <= p@.len(),
            i <= b@.len(),
            b@.len() == path_components(base@).len(),
            p@.len() == path_components(path@).len(),
            forall|k: int| 0 <= k < b@.len() ==> #[trigger] b@[k]@ == path_components(base@)[k],
            forall|k: int| 0 <= k < p@.len() ==> #[trigger] p@[k]@ == path_components(path@)[k],
            forall|k: int| 0 <= k < i ==> path_components(path@)[k] == path_components(base@)[k],
        decreases b.len() - i,
    {
        if !chars_equal(&p[i], &b[i]) {
            proof {
                assert(path_components(path@).take(b@.len() as int)[i as int] == path_components(
                    path@,
                )[i as int]);
            }
            return false;
        }
        i += 1;
    }
    assert(path_components(path@).take(b@.len() as int) =~= path_components(base@));
    true
}

} // verus!

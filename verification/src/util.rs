//! Completion of a command that was typed in part.

use vstd::prelude::*;

verus! {

/// Whether the command `s` begins with `cmd` and goes on with `t`.
pub open spec fn continues(s: Seq<char>, cmd: Seq<char>, t: Seq<char>) -> bool {
    (cmd + t).is_prefix_of(s)
}

/// Whether every command that begins with `cmd` goes on with `t`.
pub open spec fn is_common(commands: Seq<Seq<char>>, cmd: Seq<char>, t: Seq<char>) -> bool {
    forall|i: int|
        0 <= i < commands.len() && cmd.is_prefix_of(#[trigger] commands[i]) ==> continues(
            commands[i],
            cmd,
            t,
        )
}

/// Whether some command begins with `cmd`.
pub open spec fn has_match(commands: Seq<Seq<char>>, cmd: Seq<char>) -> bool {
    exists|i: int| 0 <= i < commands.len() && cmd.is_prefix_of(#[trigger] commands[i])
}

/// Whether `t` is the completion of `cmd`: the longest text with which every
/// command goes on that begins with `cmd`, and the empty text if none does.
pub open spec fn is_completion(commands: Seq<Seq<char>>, cmd: Seq<char>, t: Seq<char>) -> bool {
    if has_match(commands, cmd) {
        &&& is_common(commands, cmd, t)
        &&& forall|u: Seq<char>| #[trigger] is_common(commands, cmd, u) ==> u.len() <= t.len()
    } else {
        t.len() == 0
    }
}

/// The characters of each command.
pub open spec fn texts(commands: Seq<&str>) -> Seq<Seq<char>> {
    commands.map_values(|s: &str| s@)
}

/// Returns the characters of `s`.
pub(crate) fn chars_of(s: &str) -> (v: Vec<char>)
    ensures
        v@ == s@,
{
    let mut v: Vec<char> = Vec::new();
    for c in it: s.chars()
        invariant
            it.seq() == s@,
            v@ == s@.take(it.index() as int),
    {
        v.push(c);
        assert(s@.take(it.index() + 1) =~= s@.take(it.index() as int).push(c));
    }
    assert(s@.take(s@.len() as int) =~= s@);
    v
}

/// Returns whether `a` and `b` are the same text.
pub(crate) fn same_text(a: &str, b: &str) -> (same: bool)
    ensures
        same == (a@ == b@),
{
    let x = chars_of(a);
    let y = chars_of(b);
    if x.len() != y.len() {
        return false;
    }
    let mut i: usize = 0;
    while i < x.len()
        invariant
            i <= x.len(),
            x.len() == y.len(),
            x@ == a@,
            y@ == b@,
            forall|k: int| 0 <= k < i ==> x[k] == y[k],
        decreases x.len() - i,
    {
        if x[i] != y[i] {
            assert(a@[i as int] != b@[i as int]);
            return false;
        }
        i = i + 1;
    }
    assert(x@ =~= y@);
    true
}

/// Returns whether `s` begins with `p`.
fn begins_with(s: &Vec<char>, p: &Vec<char>) -> (b: bool)
    ensures
        b == p@.is_prefix_of(s@),
{
    if p.len() > s.len() {
        return false;
    }
    let mut i: usize = 0;
    while i < p.len()
        invariant
            i <= p.len() <= s.len(),
            forall|k: int| 0 <= k < i ==> s[k] == p[k],
        decreases p.len() - i,
    {
        if s[i] != p[i] {
            return false;
        }
        i = i + 1;
    }
    assert(p@ =~= s@.subrange(0, p@.len() as int));
    true
}

/// Returns how many of the first `limit` characters after the first `from`
/// are the same in `a` and `b`, counted up to the first that differs.
fn common_len(a: &Vec<char>, b: &Vec<char>, from: usize, limit: usize) -> (n: usize)
    requires
        from + limit <= a.len(),
        from <= b.len(),
    ensures
        n <= limit,
        from + n <= b.len(),
        forall|k: int| from <= k < from + n ==> a[k] == b[k],
        n < limit ==> from + n == b.len() || a[from + n] != b[from + n],
{
    let mut n: usize = 0;
    while n < limit && from + n < b.len() && a[from + n] == b[from + n]
        invariant
            n <= limit,
            from + limit <= a.len(),
            from + n <= b.len(),
            forall|k: int| from <= k < from + n ==> a[k] == b[k],
        decreases limit - n,
    {
        n = n + 1;
    }
    n
}

/// Whether each of the first `i` commands that begins with `cmd` goes on
/// with `t`.
pub open spec fn common_upto(commands: Seq<Seq<char>>, cmd: Seq<char>, t: Seq<char>, i: int) -> bool {
    forall|k: int|
        0 <= k < i && cmd.is_prefix_of(#[trigger] commands[k]) ==> continues(commands[k], cmd, t)
}

/// Whether no text longer than `len` is common to the first `i` commands
/// that begin with `cmd`.
pub open spec fn longest_upto(commands: Seq<Seq<char>>, cmd: Seq<char>, len: int, i: int) -> bool {
    forall|u: Seq<char>| #[trigger] common_upto(commands, cmd, u, i) ==> u.len() <= len
}

/// A command that does not begin with `cmd` changes nothing.
proof fn lemma_skip(all: Seq<Seq<char>>, cmd: Seq<char>, t: Seq<char>, len: int, i: int)
    requires
        0 <= i < all.len(),
        !cmd.is_prefix_of(all[i]),
        common_upto(all, cmd, t, i),
        longest_upto(all, cmd, len, i),
    ensures
        common_upto(all, cmd, t, i + 1),
        longest_upto(all, cmd, len, i + 1),
{
    assert forall|u: Seq<char>| #[trigger] common_upto(all, cmd, u, i + 1) implies u.len()
        <= len by {
        assert(common_upto(all, cmd, u, i));
    }
}

/// The first command that begins with `cmd` goes on with all that follows
/// `cmd` in it, and with nothing longer.
proof fn lemma_first(all: Seq<Seq<char>>, cmd: Seq<char>, i: int)
    requires
        0 <= i < all.len(),
        cmd.is_prefix_of(all[i]),
        forall|k: int| 0 <= k < i ==> !cmd.is_prefix_of(#[trigger] all[k]),
    ensures
        common_upto(all, cmd, all[i].subrange(cmd.len() as int, all[i].len() as int), i + 1),
        longest_upto(all, cmd, all[i].len() - cmd.len(), i + 1),
{
    let t = all[i].subrange(cmd.len() as int, all[i].len() as int);
    assert(cmd + t =~= all[i]);
    assert forall|u: Seq<char>| #[trigger] common_upto(all, cmd, u, i + 1) implies u.len()
        <= all[i].len() - cmd.len() by {
        assert(continues(all[i], cmd, u));
    }
}

/// A further command that begins with `cmd` cuts the common text down to
/// the part that it shares.
proof fn lemma_next(all: Seq<Seq<char>>, cmd: Seq<char>, f: int, i: int, len: int, n: int)
    requires
        0 <= f < i < all.len(),
        cmd.is_prefix_of(all[f]),
        cmd.is_prefix_of(all[i]),
        0 <= n <= len,
        cmd.len() + len <= all[f].len(),
        cmd.len() + n <= all[i].len(),
        common_upto(all, cmd, all[f].subrange(cmd.len() as int, cmd.len() + len), i),
        longest_upto(all, cmd, len, i),
        forall|k: int| cmd.len() <= k < cmd.len() + n ==> all[f][k] == all[i][k],
        n < len ==> cmd.len() + n == all[i].len() || all[f][cmd.len() + n] != all[i][cmd.len() + n],
    ensures
        common_upto(all, cmd, all[f].subrange(cmd.len() as int, cmd.len() + n), i + 1),
        longest_upto(all, cmd, n, i + 1),
{
    let c = cmd.len() as int;
    let base = all[f];
    let s = all[i];
    let t0 = base.subrange(c, c + len);
    let t = base.subrange(c, c + n);
    assert forall|k: int| 0 <= k < i + 1 && cmd.is_prefix_of(#[trigger] all[k]) implies continues(
        all[k],
        cmd,
        t,
    ) by {
        if k < i {
            assert(continues(all[k], cmd, t0));
            assert((cmd + t) =~= (cmd + t0).subrange(0, c + n));
            assert((cmd + t) =~= all[k].subrange(0, c + n));
        } else {
            assert((cmd + t) =~= s.subrange(0, c + n));
        }
    }
    assert forall|u: Seq<char>| #[trigger] common_upto(all, cmd, u, i + 1) implies u.len() <= n by {
        assert(common_upto(all, cmd, u, i));
        assert(u.len() <= len);
        assert(continues(s, cmd, u));
        assert(continues(base, cmd, u));
        if u.len() > n {
            assert((cmd + u)[c + n] == s[c + n]);
            assert((cmd + u)[c + n] == base[c + n]);
        }
    }
}

/// Returns the completion of `cmd`: the longest text with which every
/// command goes on that begins with `cmd`, and the empty text if none does.
pub fn complete(commands: &[&str], cmd: &str) -> (out: String)
    ensures
        is_completion(texts(commands@), cmd@, out@),
{
    let typed = chars_of(cmd);
    let ghost all = texts(commands@);
    let mut first: Option<usize> = None;
    let mut base: Vec<char> = Vec::new();
    let mut len: usize = 0;
    let mut i: usize = 0;
    while i < commands.len()
        invariant
            i <= commands.len(),
            typed@ == cmd@,
            all == texts(commands@),
            first is None ==> forall|k: int| 0 <= k < i ==> !cmd@.is_prefix_of(#[trigger] all[k]),
            first matches Some(f) ==> {
                &&& f < i
                &&& base@ == all[f as int]
                &&& cmd@.is_prefix_of(base@)
                &&& cmd@.len() + len <= base@.len()
                &&& common_upto(
                    all,
                    cmd@,
                    base@.subrange(cmd@.len() as int, cmd@.len() + len),
                    i as int,
                )
                &&& longest_upto(all, cmd@, len as int, i as int)
            },
        decreases commands.len() - i,
    {
        let s = chars_of(commands[i]);
        assert(s@ == all[i as int]);
        if begins_with(&s, &typed) {
            match first {
                None => {
                    proof {
                        lemma_first(all, cmd@, i as int);
                    }
                    len = s.len() - typed.len();
                    base = s;
                    first = Some(i);
                },
                Some(f) => {
                    let n = common_len(&base, &s, typed.len(), len);
                    proof {
                        lemma_next(all, cmd@, f as int, i as int, len as int, n as int);
                    }
                    len = n;
                },
            }
        } else {
            proof {
                if first is Some {
                    lemma_skip(
                        all,
                        cmd@,
                        base@.subrange(cmd@.len() as int, cmd@.len() + len),
                        len as int,
                        i as int,
                    );
                }
            }
        }
        i = i + 1;
    }
    match first {
        None => {
            assert(!has_match(all, cmd@));
            String::new()
        },
        Some(f) => {
            let whole = commands[f];
            proof {
                assert(cmd@.is_prefix_of(all[f as int]));
                assert(has_match(all, cmd@));
                let t = base@.subrange(cmd@.len() as int, cmd@.len() + len);
                assert(is_common(all, cmd@, t));
                assert forall|u: Seq<char>| #[trigger] is_common(all, cmd@, u) implies u.len()
                    <= t.len() by {
                    assert(common_upto(all, cmd@, u, i as int));
                }
            }
            assert(typed.len() + len <= base.len());
            assert(whole@ == base@);
            let part = whole.substring_char(typed.len(), typed.len() + len);
            String::from_str(part)
        },
    }
}

} // verus!

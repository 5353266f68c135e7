//! Verified handling of the terminal's `cd` command line.
//!
//! A command selects a directory change when, after trimming, it is the
//! bare word `cd` or `cd` followed by whitespace and a target.  The
//! target may itself contain whitespace but never a newline, and the
//! bare `cd` stands for the home directory, written `~`.

use vstd::prelude::*;

verus! {

/// `c` has the Unicode white-space property.
pub open spec fn is_white(c: char) -> bool {
    ||| ('\u{9}' <= c && c <= '\u{d}')
    ||| c == ' '
    ||| c == '\u{85}'
    ||| c == '\u{a0}'
    ||| c == '\u{1680}'
    ||| ('\u{2000}' <= c && c <= '\u{200a}')
    ||| c == '\u{2028}'
    ||| c == '\u{2029}'
    ||| c == '\u{202f}'
    ||| c == '\u{205f}'
    ||| c == '\u{3000}'
}

/// Decides the Unicode white-space property of one character.
pub fn white_char(c: char) -> (r: bool)
    ensures
        r == is_white(c),
{
    ('\u{9}' <= c && c <= '\u{d}') || c == ' ' || c == '\u{85}' || c == '\u{a0}' || c
        == '\u{1680}' || ('\u{2000}' <= c && c <= '\u{200a}') || c == '\u{2028}' || c == '\u{2029}'
        || c == '\u{202f}' || c == '\u{205f}' || c == '\u{3000}'
}

/// `s` with leading white space removed.
pub open spec fn trim_front(s: Seq<char>) -> Seq<char>
    decreases s.len(),
{
    if s.len() > 0 && is_white(s[0]) {
        trim_front(s.drop_first())
    } else {
        s
    }
}

/// `s` with trailing white space removed.
pub open spec fn trim_back(s: Seq<char>) -> Seq<char>
    decreases s.len(),
{
    if s.len() > 0 && is_white(s.last()) {
        trim_back(s.drop_last())
    } else {
        s
    }
}

/// `s` with white space removed at both ends.
pub open spec fn trim(s: Seq<char>) -> Seq<char> {
    trim_back(trim_front(s))
}

proof fn lemma_trim_front_subrange(s: Seq<char>, a: int)
    requires
        0 <= a <= s.len(),
        forall|i: int| 0 <= i < a ==> is_white(s[i]),
        a < s.len() ==> !is_white(s[a]),
    ensures
        trim_front(s) == s.subrange(a, s.len() as int),
    decreases a,
{
    if a == 0 {
        assert(s =~= s.subrange(0, s.len() as int));
    } else {
        assert(is_white(s[0]));
        let d = s.drop_first();
        assert(forall|i: int| 0 <= i < a - 1 ==> is_white(#[trigger] d[i]));
        lemma_trim_front_subrange(d, a - 1);
        assert(d.subrange(a - 1, d.len() as int) =~= s.subrange(a, s.len() as int));
    }
}

proof fn lemma_trim_back_subrange(s: Seq<char>, b: int)
    requires
        0 <= b <= s.len(),
        forall|i: int| b <= i < s.len() ==> is_white(s[i]),
        b > 0 ==> !is_white(s[b - 1]),
    ensures
        trim_back(s) == s.subrange(0, b),
    decreases s.len() - b,
{
    if b == s.len() {
        if s.len() > 0 && is_white(s.last()) {
            assert(!is_white(s[b - 1]));
            assert(false);
        }
        assert(s =~= s.subrange(0, b));
    } else {
        assert(is_white(s.last()));
        let d = s.drop_last();
        lemma_trim_back_subrange(d, b);
        assert(d.subrange(0, b) =~= s.subrange(0, b));
    }
}

/// The first index at or after `j` where the white-space run ends.
pub open spec fn ws_run_end(t: Seq<char>, j: int) -> int
    decreases t.len() - j,
{
    if 0 <= j < t.len() && is_white(t[j]) {
        ws_run_end(t, j + 1)
    } else {
        j
    }
}

proof fn lemma_ws_run_end(t: Seq<char>, start: int, j: int)
    requires
        0 <= start <= j < t.len(),
        forall|k: int| start <= k < j ==> is_white(t[k]),
        !is_white(t[j]),
    ensures
        ws_run_end(t, start) == j,
    decreases j - start,
{
    if start < j {
        assert(is_white(t[start]));
        lemma_ws_run_end(t, start + 1, j);
    }
}

/// The target selected by a `cd` command line, if it is one.
pub open spec fn cd_target(s: Seq<char>) -> Option<Seq<char>> {
    let t = trim(s);
    if t == "cd"@ {
        Some("~"@)
    } else if t.len() >= 4 && t[0] == 'c' && t[1] == 'd' && is_white(t[2]) {
        let j = ws_run_end(t, 2);
        if j < t.len() && (forall|k: int| j <= k < t.len() ==> t[k] != '\n') {
            Some(t.subrange(j, t.len() as int))
        } else {
            None
        }
    } else {
        None
    }
}

/// The bounds of the trimmed span of `s`: `trim(s@)` is `s@` between the
/// returned indices.
fn trim_bounds(s: &str) -> (r: (usize, usize))
    ensures
        0 <= r.0 <= r.1 <= s@.len(),
        trim(s@) == s@.subrange(r.0 as int, r.1 as int),
        forall|i: int| 0 <= i < r.0 ==> is_white(s@[i]),
        forall|i: int| r.1 <= i < s@.len() ==> is_white(s@[i]),
        r.0 < r.1 ==> !is_white(s@[r.0 as int]) && !is_white(s@[r.1 - 1]),
{
    let n = s.unicode_len();
    let mut a: usize = 0;
    while a < n && white_char(s.get_char(a))
        invariant
            0 <= a <= n,
            n == s@.len(),
            forall|i: int| 0 <= i < a ==> is_white(s@[i]),
        decreases n - a,
    {
        a = a + 1;
    }
    if a == n {
        proof {
            lemma_trim_front_subrange(s@, a as int);
            lemma_trim_back_subrange(s@.subrange(a as int, n as int), 0);
        }
        return (n, n);
    }
    let mut b: usize = n;
    while b > a && white_char(s.get_char(b - 1))
        invariant
            a <= b <= n,
            n == s@.len(),
            forall|i: int| b <= i < n ==> is_white(s@[i]),
        decreases b,
    {
        b = b - 1;
    }
    proof {
        lemma_trim_front_subrange(s@, a as int);
        let t1 = s@.subrange(a as int, n as int);
        assert(!is_white(s@[a as int]));
        assert(b > a) by {
            if b == a {
                assert(is_white(s@[a as int]));
            }
        }
        assert(forall|i: int| b - a <= i < t1.len() ==> is_white(#[trigger] t1[i]));
        assert(!is_white(t1[b - a - 1]));
        lemma_trim_back_subrange(t1, b - a);
        assert(t1.subrange(0, b - a) =~= s@.subrange(a as int, b as int));
    }
    (a, b)
}

/// Extracts the directory a `cd` command changes to, or `None` when the
/// command is not a `cd` command.
pub fn extract_cd_target(command: &str) -> (r: Option<String>)
    ensures
        cd_target(command@) is None ==> r is None,
        cd_target(command@) matches Some(t) ==> (r matches Some(v) && v@ == t),
{
    proof {
        reveal_strlit("cd");
        reveal_strlit("~");
    }
    let (a, b) = trim_bounds(command);
    let ghost t = trim(command@);
    let len = b - a;
    if len == 2 && command.get_char(a) == 'c' && command.get_char(a + 1) == 'd' {
        proof {
            assert(t =~= "cd"@);
        }
        return Some(String::from_str("~"));
    }
    if len >= 4 && command.get_char(a) == 'c' && command.get_char(a + 1) == 'd' && white_char(
        command.get_char(a + 2),
    ) {
        assert(t != "cd"@) by {
            assert(t.len() >= 4);
        }
        let mut j: usize = a + 2;
        while white_char(command.get_char(j))
            invariant
                a + 2 <= j < b <= command@.len(),
                b - a >= 4,
                forall|i: int| a + 2 <= i < j ==> is_white(command@[i]),
                !is_white(command@[b - 1]),
                t == command@.subrange(a as int, b as int),
            decreases b - j,
        {
            j = j + 1;
            if j >= b {
                proof {
                    assert(is_white(command@[b - 1]));
                }
                assert(false);
            }
        }
        proof {
            lemma_ws_run_end(t, 2, j - a);
        }
        let mut k: usize = j;
        while k < b
            invariant
                a + 2 <= j < b <= command@.len(),
                j <= k <= b,
                t == trim(command@),
                t == command@.subrange(a as int, b as int),
                t != "cd"@,
                t.len() >= 4,
                t[0] == 'c',
                t[1] == 'd',
                is_white(t[2]),
                ws_run_end(t, 2) == j - a,
                forall|i: int| j <= i < k ==> command@[i] != '\n',
            decreases b - k,
        {
            if command.get_char(k) == '\n' {
                proof {
                    assert(t[k - a] == '\n');
                }
                return None;
            }
            k = k + 1;
        }
        let target = command.substring_char(j, b);
        proof {
            assert(forall|i: int| j - a <= i < t.len() ==> #[trigger] t[i] != '\n');
            assert(target@ =~= t.subrange(j - a, t.len() as int));
        }
        return Some(target.to_owned());
    }
    proof {
        if t == "cd"@ {
            assert(t.len() == 2);
            assert(t[0] == 'c' && t[1] == 'd');
            assert(command@[a as int] == t[0] && command@[a + 1] == t[1]);
            assert(false);
        }
    }
    None
}

/// Where a `cd` target points: the home directory, an absolute path, or a
/// path relative to the current directory.
#[derive(Clone, PartialEq, Eq, Debug, Structural)]
pub enum CdLocation {
    Home,
    Absolute,
    Relative,
}

/// How a trimmed `cd` target is resolved.
pub open spec fn spec_cd_location(t: Seq<char>) -> CdLocation {
    if t.len() == 0 || t == "~"@ {
        CdLocation::Home
    } else if t[0] == '/' {
        CdLocation::Absolute
    } else {
        CdLocation::Relative
    }
}

/// Classifies a `cd` target and returns it trimmed, so the embedder only
/// has to join or look up paths.
pub fn classify_cd_target(target: &str) -> (r: (CdLocation, String))
    ensures
        r.0 == spec_cd_location(trim(target@)),
        r.1@ == trim(target@),
{
    proof {
        reveal_strlit("~");
    }
    let (a, b) = trim_bounds(target);
    let ghost t = trim(target@);
    let trimmed = target.substring_char(a, b).to_owned();
    proof {
        assert(trimmed@ =~= t);
    }
    let loc = if b - a == 0 {
        CdLocation::Home
    } else if b - a == 1 && target.get_char(a) == '~' {
        proof {
            assert(t =~= "~"@);
        }
        CdLocation::Home
    } else if target.get_char(a) == '/' {
        assert(t != "~"@) by {
            if t == "~"@ {
                assert(t[0] == '~');
            }
        }
        CdLocation::Absolute
    } else {
        assert(t != "~"@) by {
            if t == "~"@ {
                assert(t.len() == 1 && t[0] == '~');
            }
        }
        CdLocation::Relative
    };
    (loc, trimmed)
}

/// The command with surrounding white space removed, or `None` when
/// nothing but white space remains.
pub fn trimmed_command(command: &str) -> (r: Option<String>)
    ensures
        trim(command@).len() == 0 ==> r is None,
        trim(command@).len() > 0 ==> (r matches Some(v) && v@ == trim(command@)),
{
    let (a, b) = trim_bounds(command);
    if a == b {
        None
    } else {
        let s = command.substring_char(a, b).to_owned();
        proof {
            assert(s@ =~= trim(command@));
        }
        Some(s)
    }
}

} // verus!

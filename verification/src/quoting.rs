//! Quoted byte strings as the document store and the file listing write
//! them: quotation marks and backslashes are escaped with a backslash, other
//! bytes stand for themselves, and control bytes are not representable.

use vstd::prelude::*;

verus! {

/// ASCII '"'.
pub const QUOTE: u8 = 34;
/// ASCII '\'.
pub const BACKSLASH: u8 = 92;

/// A byte that may appear in a quoted string: no control bytes.
pub open spec fn clean_byte(b: u8) -> bool {
    b >= 32
}

/// A byte string the store can hold.
pub open spec fn clean(s: Seq<u8>) -> bool {
    forall|i: int| 0 <= i < s.len() ==> clean_byte(#[trigger] s[i])
}

pub open spec fn esc_byte(b: u8) -> Seq<u8> {
    if b == QUOTE || b == BACKSLASH {
        seq![BACKSLASH, b]
    } else {
        seq![b]
    }
}

/// The escaped form of a byte string.
pub open spec fn esc(s: Seq<u8>) -> Seq<u8>
    decreases s.len(),
{
    if s.len() == 0 {
        Seq::empty()
    } else {
        esc_byte(s[0]) + esc(s.drop_first())
    }
}

proof fn lemma_esc_push(s: Seq<u8>, b: u8)
    ensures
        esc(s.push(b)) == esc(s) + esc_byte(b),
    decreases s.len(),
{
    if s.len() == 0 {
        assert(s.push(b)[0] == b);
        assert(s.push(b).drop_first() =~= Seq::<u8>::empty());
        assert(esc(Seq::<u8>::empty()) == Seq::<u8>::empty());
        assert(esc(s.push(b)) =~= esc(s) + esc_byte(b));
    } else {
        assert(s.push(b).drop_first() =~= s.drop_first().push(b));
        lemma_esc_push(s.drop_first(), b);
        assert(s.push(b)[0] == s[0]);
        assert(esc_byte(s[0]) + (esc(s.drop_first()) + esc_byte(b)) =~= esc(s) + esc_byte(b));
    }
}

/// Reads a quoted string body starting at `from` (just after the opening
/// quote): the unescaped content and the position after the closing quote.
pub open spec fn scan_string(s: Seq<u8>, from: int) -> Option<(Seq<u8>, int)>
    recommends
        0 <= from,
    decreases s.len() - from,
{
    if from < 0 || from >= s.len() {
        None
    } else if s[from] == QUOTE {
        Some((Seq::empty(), from + 1))
    } else if s[from] == BACKSLASH {
        if from + 1 < s.len() && (s[from + 1] == QUOTE || s[from + 1] == BACKSLASH) {
            match scan_string(s, from + 2) {
                Some(te) => Some((seq![s[from + 1]] + te.0, te.1)),
                None => None,
            }
        } else {
            None
        }
    } else if !clean_byte(s[from]) {
        None
    } else {
        match scan_string(s, from + 1) {
            Some(te) => Some((seq![s[from]] + te.0, te.1)),
            None => None,
        }
    }
}

/// Round trip: an escaped clean string followed by its closing quote scans
/// back to exactly that string.
pub proof fn lemma_scan_esc(s: Seq<u8>, x: Seq<u8>, from: int)
    requires
        clean(x),
        0 <= from,
        from + esc(x).len() < s.len(),
        s.subrange(from, from + esc(x).len() as int) == esc(x),
        s[from + esc(x).len()] == QUOTE,
    ensures
        scan_string(s, from) == Some((x, from + esc(x).len() + 1)),
    decreases x.len(),
{
    if x.len() == 0 {
        assert(s[from] == QUOTE);
    } else {
        let b = x[0];
        let e = esc(x);
        let rest = x.drop_first();
        assert(clean(rest)) by {
            assert(forall|i: int| 0 <= i < rest.len() ==> #[trigger] rest[i] == x[i + 1]);
        }
        assert(e == esc_byte(b) + esc(rest));
        if b == QUOTE || b == BACKSLASH {
            assert(e[0] == BACKSLASH && e[1] == b);
            assert(s[from] == e[0] && s[from + 1] == e[1]) by {
                assert(s.subrange(from, from + e.len() as int)[0] == s[from]);
                assert(s.subrange(from, from + e.len() as int)[1] == s[from + 1]);
            }
            assert(s.subrange(from + 2, from + 2 + esc(rest).len() as int) =~= esc(rest)) by {
                assert(forall|k: int| 0 <= k < esc(rest).len() ==> #[trigger] s.subrange(
                    from + 2, from + 2 + esc(rest).len() as int)[k] == s.subrange(
                    from, from + e.len() as int)[k + 2]);
            }
            lemma_scan_esc(s, rest, from + 2);
            assert(seq![s[from + 1]] + rest =~= x);
        } else {
            assert(e[0] == b);
            assert(s[from] == b) by {
                assert(s.subrange(from, from + e.len() as int)[0] == s[from]);
            }
            assert(clean_byte(b));
            assert(s.subrange(from + 1, from + 1 + esc(rest).len() as int) =~= esc(rest)) by {
                assert(forall|k: int| 0 <= k < esc(rest).len() ==> #[trigger] s.subrange(
                    from + 1, from + 1 + esc(rest).len() as int)[k] == s.subrange(
                    from, from + e.len() as int)[k + 1]);
            }
            lemma_scan_esc(s, rest, from + 1);
            assert(seq![s[from]] + rest =~= x);
        }
    }
}

/// Appends the escaped form of `s` to `out`.
pub fn append_escaped(out: &mut Vec<u8>, s: &[u8])
    ensures
        final(out)@ == old(out)@ + esc(s@),
{
    let ghost base = out@;
    let mut i: usize = 0;
    let n = s.len();
    while i < n
        invariant
            0 <= i <= n == s@.len(),
            out@ == base + esc(s@.take(i as int)),
        decreases n - i,
    {
        let b = s[i];
        if b == QUOTE || b == BACKSLASH {
            out.push(BACKSLASH);
            out.push(b);
        } else {
            out.push(b);
        }
        proof {
            lemma_esc_push(s@.take(i as int), b);
            assert(s@.take(i as int).push(s@[i as int]) =~= s@.take(i + 1));
            assert(out@ =~= base + esc(s@.take(i + 1)));
        }
        i = i + 1;
    }
    proof {
        assert(s@.take(n as int) =~= s@);
    }
}

/// Whether every byte of `s` may stand in a quoted string.
pub fn is_clean(s: &[u8]) -> (r: bool)
    ensures
        r == clean(s@),
{
    let mut i: usize = 0;
    let n = s.len();
    while i < n
        invariant
            0 <= i <= n == s@.len(),
            forall|k: int| 0 <= k < i ==> clean_byte(#[trigger] s@[k]),
        decreases n - i,
    {
        if s[i] < 32 {
            return false;
        }
        i = i + 1;
    }
    true
}

/// Reads a quoted string body out of `s`, starting just after the opening
/// quote; returns the content and the position after the closing quote.
pub fn read_string(s: &[u8], from: usize) -> (r: Option<(Vec<u8>, usize)>)
    requires
        0 <= from <= s@.len(),
    ensures
        match r {
            Some(p) => scan_string(s@, from as int) == Some((p.0@, p.1 as int)) && from < p.1
                <= s@.len(),
            None => scan_string(s@, from as int) is None,
        },
{
    let mut out: Vec<u8> = Vec::new();
    let mut i: usize = from;
    let n = s.len();
    proof {
        if scan_string(s@, from as int) is Some {
            lemma_scan_string_bounds(s@, from as int);
            let te = scan_string(s@, from as int)->Some_0;
            assert(Seq::<u8>::empty() + te.0 =~= te.0);
        }
    }
    loop
        invariant
            from <= i <= n == s@.len(),
            match scan_string(s@, i as int) {
                Some(te) => scan_string(s@, from as int) == Some((out@ + te.0, te.1)) && te.1
                    <= s@.len(),
                None => scan_string(s@, from as int) is None,
            },
        decreases n - i,
    {
        if i == n {
            return None;
        }
        let b = s[i];
        if b == QUOTE {
            proof {
                assert(out@ + Seq::<u8>::empty() =~= out@);
            }
            return Some((out, i + 1));
        } else if b == BACKSLASH {
            if i + 1 < n && (s[i + 1] == QUOTE || s[i + 1] == BACKSLASH) {
                let ghost prev = out@;
                out.push(s[i + 1]);
                proof {
                    if scan_string(s@, i + 2) is Some {
                        let te = scan_string(s@, i + 2)->Some_0;
                        assert(out@ + te.0 =~= prev + (seq![s@[i + 1]] + te.0));
                    }
                }
                i = i + 2;
            } else {
                return None;
            }
        } else if b < 32 {
            return None;
        } else {
            let ghost prev = out@;
            out.push(b);
            proof {
                if scan_string(s@, i + 1) is Some {
                    let te = scan_string(s@, i + 1)->Some_0;
                    assert(out@ + te.0 =~= prev + (seq![s@[i as int]] + te.0));
                }
            }
            i = i + 1;
        }
    }
}

/// The scanned end position advances past `from`.
pub proof fn lemma_scan_string_bounds(s: Seq<u8>, from: int)
    requires
        0 <= from,
        scan_string(s, from) is Some,
    ensures
        from < scan_string(s, from)->Some_0.1 <= s.len(),
    decreases s.len() - from,
{
    if s[from] == QUOTE {
    } else if s[from] == BACKSLASH {
        lemma_scan_string_bounds(s, from + 2);
    } else {
        lemma_scan_string_bounds(s, from + 1);
    }
}

/// Escaping a clean string yields only clean bytes.
pub proof fn lemma_esc_clean(s: Seq<u8>)
    requires
        clean(s),
    ensures
        clean(esc(s)),
    decreases s.len(),
{
    if s.len() > 0 {
        let rest = s.drop_first();
        assert(clean(rest)) by {
            assert(forall|i: int| 0 <= i < rest.len() ==> #[trigger] rest[i] == s[i + 1]);
        }
        lemma_esc_clean(rest);
        assert(clean_byte(s[0]));
        assert forall|k: int| 0 <= k < esc(s).len() implies clean_byte(#[trigger] esc(s)[k]) by {
            if k < esc_byte(s[0]).len() {
                assert(esc(s)[k] == esc_byte(s[0])[k]);
            } else {
                assert(esc(s)[k] == esc(rest)[k - esc_byte(s[0]).len()]);
            }
        }
    }
}

} // verus!

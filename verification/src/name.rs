//! Fully-qualified DNS names as dot-separated label strings, their validity,
//! and their uncompressed wire-format encoding.
use vstd::prelude::*;

verus! {

/// Index of the first `'.'` in `s`, or `s.len()` if there is none.
pub open spec fn first_dot(s: Seq<char>) -> int
    decreases s.len(),
{
    if s.len() == 0 {
        0
    } else if s[0] == '.' {
        0
    } else {
        1 + first_dot(s.skip(1))
    }
}

pub proof fn lemma_first_dot(s: Seq<char>)
    ensures
        0 <= first_dot(s) <= s.len(),
        first_dot(s) < s.len() ==> s[first_dot(s)] == '.',
        forall|j: int| 0 <= j < first_dot(s) ==> s[j] != '.',
    decreases s.len(),
{
    if s.len() == 0 {
    } else if s[0] == '.' {
    } else {
        lemma_first_dot(s.skip(1));
        assert forall|j: int| 0 <= j < first_dot(s) implies s[j] != '.' by {
            if j >= 1 {
                assert(s.skip(1)[j - 1] == s[j]);
            }
        }
        if first_dot(s) < s.len() {
            assert(s.skip(1)[first_dot(s) - 1] == s[first_dot(s)]);
        }
    }
}

/// `d` is the position of the first dot (or the length, if dot-free)
/// exactly when no earlier position holds a dot.
pub proof fn lemma_first_dot_is(s: Seq<char>, d: int)
    requires
        0 <= d <= s.len(),
        forall|j: int| 0 <= j < d ==> s[j] != '.',
        d < s.len() ==> s[d] == '.',
    ensures
        first_dot(s) == d,
    decreases s.len(),
{
    if s.len() == 0 {
    } else if s[0] == '.' {
    } else {
        assert forall|j: int| 0 <= j < d - 1 implies s.skip(1)[j] != '.' by {
            assert(s.skip(1)[j] == s[j + 1]);
        }
        if d - 1 < s.skip(1).len() {
            assert(s.skip(1)[d - 1] == s[d]);
        }
        lemma_first_dot_is(s.skip(1), d - 1);
    }
}

/// A character allowed inside a label: printable ASCII other than the dot.
pub open spec fn is_name_char(c: char) -> bool {
    32 <= c as u32 <= 126 && c != '.'
}

/// A well-formed label: between 1 and 63 characters, all of them name characters.
pub open spec fn label_ok(l: Seq<char>) -> bool {
    1 <= l.len() <= 63 && forall|j: int| 0 <= j < l.len() ==> is_name_char(#[trigger] l[j])
}

/// Every dot-separated label of `s` is well formed.
pub open spec fn labels_ok(s: Seq<char>) -> bool
    decreases s.len(),
    via labels_ok_decreases
{
    if first_dot(s) == s.len() {
        label_ok(s)
    } else {
        label_ok(s.take(first_dot(s))) && labels_ok(s.skip(first_dot(s) + 1))
    }
}

#[via_fn]
proof fn labels_ok_decreases(s: Seq<char>) {
    lemma_first_dot(s);
}

/// A name this responder can own or answer for: dot-separated well-formed
/// labels, short enough that its wire form fits in the 255 bytes DNS allows.
pub open spec fn valid_dns_name(s: Seq<char>) -> bool {
    s.len() <= 253 && labels_ok(s)
}

/// Wire form of one label: a length byte followed by the label's bytes.
pub open spec fn label_wire(l: Seq<char>) -> Seq<u8> {
    seq![l.len() as u8] + l.map_values(|c: char| c as u8)
}

/// Uncompressed DNS wire form of a name: each label length-prefixed,
/// terminated by a zero byte.
pub open spec fn name_wire(s: Seq<char>) -> Seq<u8>
    decreases s.len(),
    via name_wire_decreases
{
    if first_dot(s) == s.len() {
        label_wire(s) + seq![0u8]
    } else {
        label_wire(s.take(first_dot(s))) + name_wire(s.skip(first_dot(s) + 1))
    }
}

#[via_fn]
proof fn name_wire_decreases(s: Seq<char>) {
    lemma_first_dot(s);
}

/// The wire form of a well-formed name is two bytes longer than the name:
/// one length byte per label in place of the separating dots, plus the
/// leading length byte and the terminal zero.
pub proof fn lemma_name_wire_len(s: Seq<char>)
    requires
        labels_ok(s),
    ensures
        name_wire(s).len() == s.len() + 2,
    decreases s.len(),
{
    lemma_first_dot(s);
    let d = first_dot(s);
    if d == s.len() {
        assert(name_wire(s).len() == 1 + s.len() + 1);
    } else {
        lemma_name_wire_len(s.skip(d + 1));
        assert(name_wire(s).len() == (1 + d) + (s.len() - d - 1 + 2));
    }
}

/// A character that breaks its label makes the whole name invalid.
proof fn lemma_bad_char(s: Seq<char>, j: int)
    requires
        0 <= j < s.len(),
        forall|k: int| 0 <= k <= j ==> s[k] != '.',
        !is_name_char(s[j]),
    ensures
        !labels_ok(s),
{
    lemma_first_dot(s);
    let d = first_dot(s);
    if d <= j {
        assert(s[d] == '.');
    }
    if d == s.len() {
        assert(!label_ok(s));
    } else {
        assert(s.take(d)[j] == s[j]);
        assert(!label_ok(s.take(d)));
    }
}

pub proof fn lemma_skip_skip(s: Seq<char>, a: int, b: int)
    requires
        0 <= a,
        0 <= b,
        a + b <= s.len(),
    ensures
        s.skip(a).skip(b) =~= s.skip(a + b),
{
}

/// Decides whether `c` may appear inside a label.
fn name_char(c: char) -> (r: bool)
    ensures
        r == is_name_char(c),
{
    let u = c as u32;
    32 <= u && u <= 126 && c != '.'
}

/// Decides whether `s` is a well-formed DNS name.
pub fn name_is_valid(s: &str) -> (r: bool)
    ensures
        r == valid_dns_name(s@),
{
    let n = s.unicode_len();
    if n > 253 {
        return false;
    }
    let mut pos: usize = 0;
    proof {
        assert(s@.skip(0) =~= s@);
    }
    loop
        invariant
            pos <= n,
            n == s@.len() <= 253,
            labels_ok(s@) <==> labels_ok(s@.skip(pos as int)),
        decreases n - pos,
    {
        let ghost t = s@.skip(pos as int);
        // scan one label starting at pos
        let mut q: usize = pos;
        while q < n && s.get_char(q) != '.'
            invariant
                pos <= q <= n,
                n == s@.len(),
                t == s@.skip(pos as int),
                labels_ok(s@) <==> labels_ok(t),
                forall|j: int| pos <= j < q ==> s@[j] != '.' && is_name_char(#[trigger] s@[j]),
            decreases n - q,
        {
            if !name_char(s.get_char(q)) {
                proof {
                    assert forall|k: int| 0 <= k <= q - pos implies t[k] != '.' by {
                        assert(t[k] == s@[pos + k]);
                    }
                    assert(t[q - pos] == s@[q as int]);
                    lemma_bad_char(t, q - pos);
                }
                return false;
            }
            q = q + 1;
        }
        proof {
            assert forall|j: int| 0 <= j < q - pos implies t[j] != '.' by {
                assert(t[j] == s@[pos + j]);
            }
            if (q as int) < n {
                assert(t[q - pos] == s@[q as int]);
            }
            lemma_first_dot_is(t, q - pos);
        }
        let len = q - pos;
        if len == 0 || len > 63 {
            proof {
                if first_dot(t) == t.len() {
                    assert(!label_ok(t));
                } else {
                    assert(t.take(q - pos).len() == q - pos);
                    assert(!label_ok(t.take(q - pos)));
                }
            }
            return false;
        }
        proof {
            assert forall|j: int| 0 <= j < q - pos implies is_name_char(
                #[trigger] t.take(q - pos)[j],
            ) by {
                assert(t.take(q - pos)[j] == s@[pos + j]);
            }
            assert(label_ok(t.take(q - pos)));
        }
        if q == n {
            proof {
                assert(t.take(q - pos) =~= t);
                assert(labels_ok(t));
            }
            return true;
        }
        proof {
            lemma_skip_skip(s@, pos as int, q - pos + 1);
            assert(labels_ok(t) <==> labels_ok(s@.skip(q as int + 1)));
        }
        pos = q + 1;
    }
}

/// Appends the wire form of the name `s` to `out`.
pub fn encode_name(s: &str, out: &mut Vec<u8>)
    requires
        valid_dns_name(s@),
    ensures
        final(out)@ == old(out)@ + name_wire(s@),
{
    let n = s.unicode_len();
    let mut pos: usize = 0;
    proof {
        assert(s@.skip(0) =~= s@);
    }
    loop
        invariant
            pos <= n,
            n == s@.len(),
            labels_ok(s@.skip(pos as int)),
            out@ + name_wire(s@.skip(pos as int)) == old(out)@ + name_wire(s@),
        decreases n - pos,
    {
        let ghost t = s@.skip(pos as int);
        let ghost base = out@;
        let mut q: usize = pos;
        while q < n && s.get_char(q) != '.'
            invariant
                pos <= q <= n,
                n == s@.len(),
                forall|j: int| pos <= j < q ==> s@[j] != '.',
            decreases n - q,
        {
            q = q + 1;
        }
        proof {
            assert forall|j: int| 0 <= j < q - pos implies t[j] != '.' by {
                assert(t[j] == s@[pos + j]);
            }
            if (q as int) < n {
                assert(t[q - pos] == s@[q as int]);
            }
            lemma_first_dot_is(t, q - pos);
            if first_dot(t) == t.len() {
                assert(label_ok(t));
            } else {
                assert(label_ok(t.take(q - pos)));
            }
        }
        let ghost l = if q == n { t } else { t.take(q - pos) };
        proof {
            assert(l.len() == q - pos);
        }
        out.push((q - pos) as u8);
        let mut j: usize = pos;
        proof {
            assert(l.take(0).map_values(|c: char| c as u8) =~= Seq::<u8>::empty());
            assert(out@ =~= base + seq![l.len() as u8]);
        }
        while j < q
            invariant
                pos <= j <= q <= n,
                n == s@.len(),
                l.len() == q - pos,
                forall|k: int| 0 <= k < l.len() ==> l[k] == s@[pos + k],
                out@ == base + seq![l.len() as u8] + l.take(j - pos).map_values(|c: char| c as u8),
            decreases q - j,
        {
            let c = s.get_char(j);
            out.push(c as u8);
            proof {
                assert(l[j - pos] == s@[j as int]);
                assert(l.take(j - pos + 1).map_values(|c: char| c as u8) =~= l.take(
                    j - pos,
                ).map_values(|c: char| c as u8).push(s@[j as int] as u8));
            }
            j = j + 1;
        }
        proof {
            assert(l.take(q - pos) =~= l);
            assert(out@ =~= base + label_wire(l));
        }
        if q == n {
            out.push(0u8);
            proof {
                assert(name_wire(t) == label_wire(t) + seq![0u8]);
                assert(out@ =~= base + name_wire(t));
            }
            return ;
        }
        proof {
            lemma_skip_skip(s@, pos as int, q - pos + 1);
            assert(name_wire(t) == label_wire(l) + name_wire(s@.skip(q as int + 1)));
            assert(out@ + name_wire(s@.skip(q as int + 1)) =~= base + name_wire(t));
        }
        pos = q + 1;
    }
}

} // verus!

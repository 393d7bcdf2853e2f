//! Fresh identifiers for nodes, edges, workflows and executions.

use vstd::prelude::*;
use vstd::string::StringExecFns;

verus! {

/// A lower-case hexadecimal digit.
pub open spec fn is_lower_hex_digit(c: char) -> bool {
    ('0' <= c && c <= '9') || ('a' <= c && c <= 'f')
}

/// The "simple" text form of a random (version 4, RFC variant) UUID:
/// 32 lower-case hex digits, the version digit `4` at position 12 and
/// one of `8`, `9`, `a`, `b` at position 16.
pub open spec fn is_simple_v4_uuid(s: Seq<char>) -> bool {
    &&& s.len() == 32
    &&& forall|i: int| 0 <= i < 32 ==> #[trigger] is_lower_hex_digit(s[i])
    &&& s[12] == '4'
    &&& (s[16] == '8' || s[16] == '9' || s[16] == 'a' || s[16] == 'b')
}

/// Calls `uuid::Uuid::new_v4()` and renders it with `.simple().to_string()`.
/// The uuid crate masks the random 128 bits so that the version nibble is 4 and
/// the variant bits are `10`, and `Simple` prints the 16 bytes as 32
/// lower-case hex digits. Which digits come out is left open: they are random.
#[verifier::external_body]
pub fn new_id() -> (id: String)
    ensures
        is_simple_v4_uuid(id@),
{
    uuid::Uuid::new_v4().simple().to_string()
}

/// The lower-case hex digit for `d` (taken modulo 16).
pub open spec fn hex_char(d: u64) -> char {
    let x = d & 15u64;
    if x == 0 { '0' } else if x == 1 { '1' } else if x == 2 { '2' } else if x == 3 { '3' }
    else if x == 4 { '4' } else if x == 5 { '5' } else if x == 6 { '6' } else if x == 7 { '7' }
    else if x == 8 { '8' } else if x == 9 { '9' } else if x == 10 { 'a' } else if x == 11 { 'b' }
    else if x == 12 { 'c' } else if x == 13 { 'd' } else if x == 14 { 'e' } else { 'f' }
}

/// Which hex digit of a counter (`0` the lowest) sits at position `p` of the
/// id made from it; `None` for the fixed positions.
pub open spec fn digit_at(p: int) -> Option<u64> {
    if 0 <= p < 12 {
        Some(p as u64)
    } else if 13 <= p < 16 {
        Some((p - 1) as u64)
    } else if p == 17 {
        Some(15u64)
    } else {
        None
    }
}

/// The id made from counter `c`: its 16 hex digits spread over the free
/// positions of a v4 UUID, with `4` at position 12, `8` at position 16 and
/// `0` elsewhere.
pub open spec fn counter_id(c: u64) -> Seq<char> {
    Seq::new(
        32,
        |p: int|
            if p == 12 {
                '4'
            } else if p == 16 {
                '8'
            } else {
                match digit_at(p) {
                    Some(d) => hex_char(c >> (d * 4)),
                    None => '0',
                }
            },
    )
}

/// The one-letter text of the hex digit for `d` (taken modulo 16).
fn hex_str(d: u64) -> (t: &'static str)
    ensures
        t@ =~= seq![hex_char(d)],
{
    let x = d & 15u64;
    proof {
        assert(x < 16) by (bit_vector)
            requires
                x == d & 15u64;
    }
    if x == 0 {
        proof {
            reveal_strlit("0");
        }
        "0"
    } else if x == 1 {
        proof {
            reveal_strlit("1");
        }
        "1"
    } else if x == 2 {
        proof {
            reveal_strlit("2");
        }
        "2"
    } else if x == 3 {
        proof {
            reveal_strlit("3");
        }
        "3"
    } else if x == 4 {
        proof {
            reveal_strlit("4");
        }
        "4"
    } else if x == 5 {
        proof {
            reveal_strlit("5");
        }
        "5"
    } else if x == 6 {
        proof {
            reveal_strlit("6");
        }
        "6"
    } else if x == 7 {
        proof {
            reveal_strlit("7");
        }
        "7"
    } else if x == 8 {
        proof {
            reveal_strlit("8");
        }
        "8"
    } else if x == 9 {
        proof {
            reveal_strlit("9");
        }
        "9"
    } else if x == 10 {
        proof {
            reveal_strlit("a");
        }
        "a"
    } else if x == 11 {
        proof {
            reveal_strlit("b");
        }
        "b"
    } else if x == 12 {
        proof {
            reveal_strlit("c");
        }
        "c"
    } else if x == 13 {
        proof {
            reveal_strlit("d");
        }
        "d"
    } else if x == 14 {
        proof {
            reveal_strlit("e");
        }
        "e"
    } else {
        proof {
            reveal_strlit("f");
        }
        "f"
    }
}

/// The one-letter text of a fixed character of a counter id.
fn fixed_str(c: char) -> (t: &'static str)
    requires
        c == '4' || c == '8' || c == '0',
    ensures
        t@ =~= seq![c],
{
    if c == '4' {
        proof {
            reveal_strlit("4");
        }
        "4"
    } else if c == '8' {
        proof {
            reveal_strlit("8");
        }
        "8"
    } else {
        proof {
            reveal_strlit("0");
        }
        "0"
    }
}

/// The id made from counter `c`.
fn make_counter_id(c: u64) -> (id: String)
    ensures
        id@ == counter_id(c),
{
    let mut id = String::new();
    let mut p: usize = 0;
    while p < 32
        invariant
            p <= 32,
            id@ =~= counter_id(c).take(p as int),
        decreases 32 - p,
    {
        let t: &str = if p == 12 {
            fixed_str('4')
        } else if p == 16 {
            fixed_str('8')
        } else if p < 12 {
            hex_str(c >> ((p as u64) * 4))
        } else if p < 16 {
            hex_str(c >> (((p - 1) as u64) * 4))
        } else if p == 17 {
            hex_str(c >> 60u64)
        } else {
            fixed_str('0')
        };
        let ghost before = id@;
        id.append(t);
        proof {
            assert(t@ =~= seq![counter_id(c)[p as int]]);
            assert(id@ =~= before.push(counter_id(c)[p as int]));
            assert(counter_id(c).take(p + 1) =~= counter_id(c).take(p as int).push(counter_id(c)[p as int]));
        }
        p += 1;
    }
    proof {
        assert(counter_id(c).take(32) =~= counter_id(c));
    }
    id
}

proof fn lemma_hex_char_inj(a: u64, b: u64)
    requires
        hex_char(a) == hex_char(b),
    ensures
        a & 15u64 == b & 15u64,
{
    assert(a & 15u64 < 16) by (bit_vector);
    assert(b & 15u64 < 16) by (bit_vector);
}

/// An id made from a counter is a v4 UUID in simple form, and different
/// counters make different ids.
proof fn lemma_counter_id(c1: u64, c2: u64)
    ensures
        is_simple_v4_uuid(counter_id(c1)),
        counter_id(c1) == counter_id(c2) ==> c1 == c2,
{
    let s = counter_id(c1);
    assert forall|i: int| 0 <= i < 32 implies #[trigger] is_lower_hex_digit(s[i]) by {
        if let Some(d) = digit_at(i) {
            let x = (c1 >> (d * 4)) & 15u64;
            assert(x < 16) by (bit_vector)
                requires
                    x == (c1 >> (d * 4)) & 15u64;
        }
    }
    if counter_id(c1) == counter_id(c2) {
        let t = counter_id(c2);
        assert forall|p: int| 0 <= p < 32 && digit_at(p) is Some implies ((c1 >> (digit_at(p)->0 * 4)) & 15u64)
            == ((c2 >> (digit_at(p)->0 * 4)) & 15u64) by {
            assert(s[p] == t[p]);
            lemma_hex_char_inj(c1 >> (digit_at(p)->0 * 4), c2 >> (digit_at(p)->0 * 4));
        }
        assert(digit_at(0) == Some(0u64));
        assert(digit_at(1) == Some(1u64));
        assert(digit_at(2) == Some(2u64));
        assert(digit_at(3) == Some(3u64));
        assert(digit_at(4) == Some(4u64));
        assert(digit_at(5) == Some(5u64));
        assert(digit_at(6) == Some(6u64));
        assert(digit_at(7) == Some(7u64));
        assert(digit_at(8) == Some(8u64));
        assert(digit_at(9) == Some(9u64));
        assert(digit_at(10) == Some(10u64));
        assert(digit_at(11) == Some(11u64));
        assert(digit_at(13) == Some(12u64));
        assert(digit_at(14) == Some(13u64));
        assert(digit_at(15) == Some(14u64));
        assert(digit_at(17) == Some(15u64));
        assert(c1 == c2) by (bit_vector)
            requires
                (c1 >> 0u64) & 15u64 == (c2 >> 0u64) & 15u64,
                (c1 >> 4u64) & 15u64 == (c2 >> 4u64) & 15u64,
                (c1 >> 8u64) & 15u64 == (c2 >> 8u64) & 15u64,
                (c1 >> 12u64) & 15u64 == (c2 >> 12u64) & 15u64,
                (c1 >> 16u64) & 15u64 == (c2 >> 16u64) & 15u64,
                (c1 >> 20u64) & 15u64 == (c2 >> 20u64) & 15u64,
                (c1 >> 24u64) & 15u64 == (c2 >> 24u64) & 15u64,
                (c1 >> 28u64) & 15u64 == (c2 >> 28u64) & 15u64,
                (c1 >> 32u64) & 15u64 == (c2 >> 32u64) & 15u64,
                (c1 >> 36u64) & 15u64 == (c2 >> 36u64) & 15u64,
                (c1 >> 40u64) & 15u64 == (c2 >> 40u64) & 15u64,
                (c1 >> 44u64) & 15u64 == (c2 >> 44u64) & 15u64,
                (c1 >> 48u64) & 15u64 == (c2 >> 48u64) & 15u64,
                (c1 >> 52u64) & 15u64 == (c2 >> 52u64) & 15u64,
                (c1 >> 56u64) & 15u64 == (c2 >> 56u64) & 15u64,
                (c1 >> 60u64) & 15u64 == (c2 >> 60u64) & 15u64,
        ;
    }
}

/// The texts of some ids.
pub open spec fn id_views(ids: Seq<String>) -> Seq<Seq<char>> {
    ids.map_values(|s: String| s@)
}

/// Whether `id` is among `ids`.
pub(crate) fn contains_id(ids: &Vec<String>, id: &String) -> (b: bool)
    ensures
        b <==> id_views(ids@).contains(id@),
{
    let mut j: usize = 0;
    while j < ids.len()
        invariant
            j <= ids@.len(),
            forall|i: int| 0 <= i < j ==> #[trigger] ids@[i]@ != id@,
        decreases ids@.len() - j,
    {
        if ids[j] == *id {
            proof {
                assert(id_views(ids@)[j as int] == id@);
            }
            return true;
        }
        j += 1;
    }
    proof {
        if id_views(ids@).contains(id@) {
            let i = choose|i: int| 0 <= i < id_views(ids@).len() && id_views(ids@)[i] == id@;
            assert(ids@[i]@ == id@);
        }
    }
    false
}

/// Among one more counter ids than `taken` holds, one is not taken.
proof fn lemma_some_counter_id_free(taken: Seq<String>)
    requires
        taken.len() <= u64::MAX,
    ensures
        exists|i: int| 0 <= i <= taken.len() && !id_views(taken).contains(#[trigger] counter_id(i as u64)),
{
    let k = taken.len();
    if forall|i: int| 0 <= i <= k ==> id_views(taken).contains(#[trigger] counter_id(i as u64)) {
        let cands = Seq::new(k + 1, |i: int| counter_id(i as u64));
        assert(cands.no_duplicates()) by {
            assert forall|a: int, b: int| 0 <= a < cands.len() && 0 <= b < cands.len() && a != b implies cands[a] != cands[b] by {
                lemma_counter_id(a as u64, b as u64);
            }
        }
        cands.unique_seq_to_set();
        let views = id_views(taken);
        views.lemma_cardinality_of_set();
        assert(cands.to_set().subset_of(views.to_set())) by {
            assert forall|x: Seq<char>| cands.to_set().contains(x) implies views.to_set().contains(x) by {
                let i = choose|i: int| 0 <= i < cands.len() && cands[i] == x;
                assert(id_views(taken).contains(counter_id(i as u64)));
            }
        }
        vstd::set_lib::lemma_len_subset(cands.to_set(), views.to_set());
    }
}

/// An id in the form of a v4 UUID that none of `taken` has: the first of the
/// ids made from the counters 0, 1, 2, ... that is not taken (among one more
/// counter than there are taken ids, one is free).
pub(crate) fn unused_id(taken: &Vec<String>) -> (id: String)
    ensures
        is_simple_v4_uuid(id@),
        !id_views(taken@).contains(id@),
{
    let k = taken.len();
    let mut c: usize = 0;
    loop
        invariant
            k == taken@.len(),
            c <= k,
            forall|i: int| 0 <= i < c ==> id_views(taken@).contains(#[trigger] counter_id(i as u64)),
        decreases k - c,
    {
        let cand = make_counter_id(c as u64);
        proof {
            lemma_counter_id(c as u64, c as u64);
        }
        if !contains_id(taken, &cand) {
            return cand;
        }
        if c == k {
            proof {
                lemma_some_counter_id_free(taken@);
                let i = choose|i: int| 0 <= i <= taken@.len() && !id_views(taken@).contains(#[trigger] counter_id(i as u64));
                if i < c {
                    assert(id_views(taken@).contains(counter_id(i as u64)));
                }
            }
            return cand;
        }
        c += 1;
    }
}

} // verus!

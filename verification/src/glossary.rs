//! The Albion glossary: game terms that machine translation mangles are
//! replaced, case-insensitively and as whole words, in translated text.
use vstd::prelude::*;
use vstd::utf8::*;
use crate::text::{
    byte_len, chars_of, lemma_byte_len_prefix, lemma_byte_len_step, lowercase, string_of, to_lowercase,
    width,
};
use crate::translator::{find_chars, find_text};

verus! {

broadcast use vstd::string::group_string_axioms;

/// The character index in `s` at which its first `b` bytes end, when `b`
/// falls on a character boundary (searching from index `m`).
pub open spec fn index_at_byte_from(s: Seq<char>, b: nat, m: int) -> Option<int>
    decreases s.len() + 1 - m,
{
    if m < 0 || m > s.len() {
        None
    } else if byte_len(s.take(m)) == b {
        Some(m)
    } else {
        index_at_byte_from(s, b, m + 1)
    }
}

// ---------------------------------------------------------------------------
// The table
// ---------------------------------------------------------------------------

/// Number of glossary entries.
pub open spec fn glossary_len() -> nat {
    54
}

/// Glossary entry `i`: a term and its replacement.
pub open spec fn glossary_pair(i: usize) -> (Seq<char>, Seq<char>) {
    match i {
        0 => ("HO"@, "hideout"@),
        1 => ("ZvZ"@, "zerg versus zerg"@),
        2 => ("Gank"@, "gank"@),
        3 => ("Ganking"@, "ganking"@),
        4 => ("LFG"@, "looking for group"@),
        5 => ("LFM"@, "looking for members"@),
        6 => ("WTS"@, "want to sell"@),
        7 => ("WTB"@, "want to buy"@),
        8 => ("WTT"@, "want to trade"@),
        9 => ("PVE"@, "PvE"@),
        10 => ("PVP"@, "PvP"@),
        11 => ("AO"@, "Albion Online"@),
        12 => ("BZ"@, "black zone"@),
        13 => ("RZ"@, "red zone"@),
        14 => ("YZ"@, "yellow zone"@),
        15 => ("CTA"@, "call to arms"@),
        16 => ("Zerg"@, "zerg"@),
        17 => ("Ava"@, "Avalonian"@),
        18 => ("Avas"@, "Avalonians"@),
        19 => ("Dive"@, "dive"@),
        20 => ("Diving"@, "diving"@),
        21 => ("Static"@, "static dungeon"@),
        22 => ("Estatica"@, "static dungeon"@),
        23 => ("Roaming"@, "roaming"@),
        24 => ("Gank"@, "gank"@),
        25 => ("Blob"@, "blob"@),
        26 => ("Clap"@, "clap"@),
        27 => ("Bomb"@, "bomb squad"@),
        28 => ("Bombsquad"@, "bomb squad"@),
        29 => ("Rat"@, "rat"@),
        30 => ("Rats"@, "rats"@),
        31 => ("Fame"@, "fame"@),
        32 => ("Spec"@, "specialization"@),
        33 => ("Specs"@, "specializations"@),
        34 => ("IP"@, "item power"@),
        35 => ("MP"@, "masterpiece"@),
        36 => ("T8"@, "tier 8"@),
        37 => ("T7"@, "tier 7"@),
        38 => ("T6"@, "tier 6"@),
        39 => ("T5"@, "tier 5"@),
        40 => ("T4"@, "tier 4"@),
        41 => ("8.3"@, "8.3"@),
        42 => ("8.4"@, "8.4"@),
        43 => ("Recluta"@, "recruiting"@),
        44 => ("Reclutando"@, "recruiting"@),
        45 => ("Reclutamiento"@, "recruitment"@),
        46 => ("Busco"@, "looking for"@),
        47 => ("Procuro"@, "looking for"@),
        48 => ("Grupales"@, "group dungeons"@),
        49 => ("Dorados"@, "gold chests"@),
        50 => ("Azules"@, "blue chests"@),
        51 => ("Caminos"@, "roads"@),
        52 => ("Gremio"@, "guild"@),
        _ => ("Guilda"@, "guild"@),
    }
}

/// The Albion glossary, term by term: what each game term is replaced
/// with, in the order the terms are tried (HO is a hideout, ZvZ zerg versus
/// zerg, LFG looking for group, WTS/WTB/WTT want to sell/buy/trade, T4-T8
/// tier 4-8, Recluta recruiting, Gremio guild, and so on).
pub proof fn law_glossary_terms()
    ensures
        glossary_pair(0) == ("HO"@, "hideout"@),
        glossary_pair(1) == ("ZvZ"@, "zerg versus zerg"@),
        glossary_pair(2) == ("Gank"@, "gank"@),
        glossary_pair(3) == ("Ganking"@, "ganking"@),
        glossary_pair(4) == ("LFG"@, "looking for group"@),
        glossary_pair(5) == ("LFM"@, "looking for members"@),
        glossary_pair(6) == ("WTS"@, "want to sell"@),
        glossary_pair(7) == ("WTB"@, "want to buy"@),
        glossary_pair(8) == ("WTT"@, "want to trade"@),
        glossary_pair(9) == ("PVE"@, "PvE"@),
        glossary_pair(10) == ("PVP"@, "PvP"@),
        glossary_pair(11) == ("AO"@, "Albion Online"@),
        glossary_pair(12) == ("BZ"@, "black zone"@),
        glossary_pair(13) == ("RZ"@, "red zone"@),
        glossary_pair(14) == ("YZ"@, "yellow zone"@),
        glossary_pair(15) == ("CTA"@, "call to arms"@),
        glossary_pair(16) == ("Zerg"@, "zerg"@),
        glossary_pair(17) == ("Ava"@, "Avalonian"@),
        glossary_pair(18) == ("Avas"@, "Avalonians"@),
        glossary_pair(19) == ("Dive"@, "dive"@),
        glossary_pair(20) == ("Diving"@, "diving"@),
        glossary_pair(21) == ("Static"@, "static dungeon"@),
        glossary_pair(22) == ("Estatica"@, "static dungeon"@),
        glossary_pair(23) == ("Roaming"@, "roaming"@),
        glossary_pair(24) == ("Gank"@, "gank"@),
        glossary_pair(25) == ("Blob"@, "blob"@),
        glossary_pair(26) == ("Clap"@, "clap"@),
        glossary_pair(27) == ("Bomb"@, "bomb squad"@),
        glossary_pair(28) == ("Bombsquad"@, "bomb squad"@),
        glossary_pair(29) == ("Rat"@, "rat"@),
        glossary_pair(30) == ("Rats"@, "rats"@),
        glossary_pair(31) == ("Fame"@, "fame"@),
        glossary_pair(32) == ("Spec"@, "specialization"@),
        glossary_pair(33) == ("Specs"@, "specializations"@),
        glossary_pair(34) == ("IP"@, "item power"@),
        glossary_pair(35) == ("MP"@, "masterpiece"@),
        glossary_pair(36) == ("T8"@, "tier 8"@),
        glossary_pair(37) == ("T7"@, "tier 7"@),
        glossary_pair(38) == ("T6"@, "tier 6"@),
        glossary_pair(39) == ("T5"@, "tier 5"@),
        glossary_pair(40) == ("T4"@, "tier 4"@),
        glossary_pair(41) == ("8.3"@, "8.3"@),
        glossary_pair(42) == ("8.4"@, "8.4"@),
        glossary_pair(43) == ("Recluta"@, "recruiting"@),
        glossary_pair(44) == ("Reclutando"@, "recruiting"@),
        glossary_pair(45) == ("Reclutamiento"@, "recruitment"@),
        glossary_pair(46) == ("Busco"@, "looking for"@),
        glossary_pair(47) == ("Procuro"@, "looking for"@),
        glossary_pair(48) == ("Grupales"@, "group dungeons"@),
        glossary_pair(49) == ("Dorados"@, "gold chests"@),
        glossary_pair(50) == ("Azules"@, "blue chests"@),
        glossary_pair(51) == ("Caminos"@, "roads"@),
        glossary_pair(52) == ("Gremio"@, "guild"@),
        glossary_pair(53) == ("Guilda"@, "guild"@),
{
}

fn glossary_entry(i: usize) -> (r: (&'static str, &'static str))
    requires
        i < 54,
    ensures
        (r.0@, r.1@) == glossary_pair(i),
{
    match i {
        0 => ("HO", "hideout"),
        1 => ("ZvZ", "zerg versus zerg"),
        2 => ("Gank", "gank"),
        3 => ("Ganking", "ganking"),
        4 => ("LFG", "looking for group"),
        5 => ("LFM", "looking for members"),
        6 => ("WTS", "want to sell"),
        7 => ("WTB", "want to buy"),
        8 => ("WTT", "want to trade"),
        9 => ("PVE", "PvE"),
        10 => ("PVP", "PvP"),
        11 => ("AO", "Albion Online"),
        12 => ("BZ", "black zone"),
        13 => ("RZ", "red zone"),
        14 => ("YZ", "yellow zone"),
        15 => ("CTA", "call to arms"),
        16 => ("Zerg", "zerg"),
        17 => ("Ava", "Avalonian"),
        18 => ("Avas", "Avalonians"),
        19 => ("Dive", "dive"),
        20 => ("Diving", "diving"),
        21 => ("Static", "static dungeon"),
        22 => ("Estatica", "static dungeon"),
        23 => ("Roaming", "roaming"),
        24 => ("Gank", "gank"),
        25 => ("Blob", "blob"),
        26 => ("Clap", "clap"),
        27 => ("Bomb", "bomb squad"),
        28 => ("Bombsquad", "bomb squad"),
        29 => ("Rat", "rat"),
        30 => ("Rats", "rats"),
        31 => ("Fame", "fame"),
        32 => ("Spec", "specialization"),
        33 => ("Specs", "specializations"),
        34 => ("IP", "item power"),
        35 => ("MP", "masterpiece"),
        36 => ("T8", "tier 8"),
        37 => ("T7", "tier 7"),
        38 => ("T6", "tier 6"),
        39 => ("T5", "tier 5"),
        40 => ("T4", "tier 4"),
        41 => ("8.3", "8.3"),
        42 => ("8.4", "8.4"),
        43 => ("Recluta", "recruiting"),
        44 => ("Reclutando", "recruiting"),
        45 => ("Reclutamiento", "recruitment"),
        46 => ("Busco", "looking for"),
        47 => ("Procuro", "looking for"),
        48 => ("Grupales", "group dungeons"),
        49 => ("Dorados", "gold chests"),
        50 => ("Azules", "blue chests"),
        51 => ("Caminos", "roads"),
        52 => ("Gremio", "guild"),
        _ => ("Guilda", "guild"),
    }
}

// ---------------------------------------------------------------------------
// Replacing
// ---------------------------------------------------------------------------

/// `char::is_alphanumeric` as a function of the character (the Unicode
/// Alphabetic and Numeric properties).
pub uninterp spec fn alphanumeric(c: char) -> bool;

/// Calls `char::is_alphanumeric`; the Unicode tables are named, not
/// restated.
#[verifier::external_body]
fn is_alphanumeric(c: char) -> (b: bool)
    ensures
        b == alphanumeric(c),
{
    c.is_alphanumeric()
}

/// One glossary entry applied to `r`: the first case-insensitive
/// occurrence of `term` (found in the lower-cased text), when it is a whole
/// word (no letter or digit right before or after it), is replaced.  The
/// byte offsets found in the lower-cased text are used to cut the unchanged
/// text; `None` when they do not fall on its character boundaries (where
/// lower-casing changed the length of the text before the match).
pub open spec fn glossary_step(r: Seq<char>, term: Seq<char>, repl: Seq<char>) -> Option<Seq<char>> {
    let l = lowercase(r);
    let t = lowercase(term);
    match find_text(l, t) {
        None => Some(r),
        Some(k) => {
            let before = l.take(k);
            let after = l.skip(k + t.len());
            let word_before = before.len() == 0 || !alphanumeric(before.last());
            let word_after = after.len() == 0 || !alphanumeric(after[0]);
            if !(word_before && word_after) {
                Some(r)
            } else {
                let pos = byte_len(before);
                let end = pos + byte_len(term);
                match (index_at_byte_from(r, pos, 0), index_at_byte_from(r, end, 0)) {
                    (Some(a), Some(b)) => Some(r.take(a) + repl + r.skip(b)),
                    _ => None,
                }
            }
        },
    }
}

/// The glossary entries from `i` on applied in order.
pub open spec fn glossary_from(r: Seq<char>, i: nat) -> Option<Seq<char>>
    decreases glossary_len() - i,
{
    if i >= glossary_len() {
        Some(r)
    } else {
        match glossary_step(r, glossary_pair(i as usize).0, glossary_pair(i as usize).1) {
            Some(r2) => glossary_from(r2, i + 1),
            None => None,
        }
    }
}

/// The glossary applied to a text; `None` where a cut would fall inside a
/// character.
pub open spec fn glossary_applied(text: Seq<char>) -> Option<Seq<char>> {
    glossary_from(text, 0)
}

proof fn lemma_index_at_byte_none(s: Seq<char>, b: nat, m: int)
    requires
        0 <= m <= s.len(),
        byte_len(s.take(m)) > b,
    ensures
        index_at_byte_from(s, b, m) is None,
    decreases s.len() + 1 - m,
{
    if m < s.len() {
        lemma_byte_len_step(s, m);
        lemma_index_at_byte_none(s, b, m + 1);
    } else {
        assert(index_at_byte_from(s, b, m + 1) is None);
    }
}

/// Bytes of the first `k` characters.
fn prefix_bytes(v: &Vec<char>, k: usize, total: usize) -> (n: usize)
    requires
        k <= v@.len(),
        total == byte_len(v@),
    ensures
        n == byte_len(v@.take(k as int)),
{
    let mut n: usize = 0;
    let mut i: usize = 0;
    assert(v@.take(0) =~= Seq::<char>::empty());
    assert(encode_utf8(Seq::<char>::empty()) =~= Seq::<u8>::empty());
    while i < k
        invariant
            k <= v@.len(),
            total == byte_len(v@),
            i <= k,
            n == byte_len(v@.take(i as int)),
        decreases k - i,
    {
        proof {
            lemma_byte_len_step(v@, i as int);
            lemma_byte_len_prefix(v@, i + 1);
        }
        n = n + char_width(v[i]);
        i += 1;
    }
    n
}

fn char_width(c: char) -> (w: usize)
    ensures
        w == width(c),
{
    let u = c as u32;
    if u < 0x80 {
        1
    } else if u < 0x800 {
        2
    } else if u < 0x10000 {
        3
    } else {
        4
    }
}

/// The character index at which the first `b` bytes end, if any.
fn index_at_byte(v: &Vec<char>, total: usize, b: usize) -> (r: Option<usize>)
    requires
        total == byte_len(v@),
    ensures
        match r {
            Some(m) => index_at_byte_from(v@, b as nat, 0) == Some(m as int) && m <= v@.len(),
            None => index_at_byte_from(v@, b as nat, 0) is None,
        },
{
    let n = v.len();
    let mut m: usize = 0;
    let mut acc: usize = 0;
    assert(v@.take(0) =~= Seq::<char>::empty());
    assert(encode_utf8(Seq::<char>::empty()) =~= Seq::<u8>::empty());
    while m <= n
        invariant
            n == v@.len(),
            total == byte_len(v@),
            m <= n + 1,
            m <= n ==> acc == byte_len(v@.take(m as int)),
            index_at_byte_from(v@, b as nat, 0) == index_at_byte_from(v@, b as nat, m as int),
        decreases n + 1 - m,
    {
        if acc == b {
            return Some(m);
        }
        if acc > b {
            proof {
                lemma_index_at_byte_none(v@, b as nat, m as int);
            }
            return None;
        }
        if m == n {
            assert(index_at_byte_from(v@, b as nat, m + 1) is None);
            return None;
        }
        proof {
            lemma_byte_len_step(v@, m as int);
            lemma_byte_len_prefix(v@, m + 1);
        }
        acc = acc + char_width(v[m]);
        m += 1;
    }
    None
}

fn glossary_step_exec(r: &String, term: &str, repl: &str) -> (out: Option<String>)
    ensures
        match out {
            Some(x) => glossary_step(r@, term@, repl@) == Some(x@),
            None => glossary_step(r@, term@, repl@) is None,
        },
{
    let l = to_lowercase(r.as_str());
    let t = to_lowercase(term);
    let lv = chars_of(l.as_str());
    let k = match find_chars(&lv, t.as_str()) {
        None => return Some(r.clone()),
        Some(k) => k,
    };
    let tv = chars_of(t.as_str());
    let tl = tv.len();
    let ln = lv.len();
    assert(k + tl <= ln);
    let end_chars = k + tl;
    let word_before = k == 0 || !is_alphanumeric(lv[k - 1]);
    let word_after = end_chars == lv.len() || !is_alphanumeric(lv[end_chars]);
    proof {
        let before = lv@.take(k as int);
        let after = lv@.skip(end_chars as int);
        if k > 0 {
            assert(before.last() == lv@[k - 1]);
        }
        if end_chars < lv@.len() {
            assert(after[0] == lv@[end_chars as int]);
        }
    }
    if !(word_before && word_after) {
        return Some(r.clone());
    }
    let pos = prefix_bytes(&lv, k, l.as_str().as_bytes().len());
    let tb = term.as_bytes().len();
    let rb = r.as_str().as_bytes().len();
    if pos > usize::MAX - tb {
        proof {
            let rv = r@;
            assert(rb == byte_len(rv));
            if index_at_byte_from(rv, (pos + tb) as nat, 0) is Some {
                lemma_index_at_byte_some(rv, (pos + tb) as nat, 0);
            }
        }
        return None;
    }
    let end = pos + tb;
    let rv = chars_of(r.as_str());
    let a = match index_at_byte(&rv, rb, pos) {
        Some(a) => a,
        None => return None,
    };
    let b = match index_at_byte(&rv, rb, end) {
        Some(b) => b,
        None => return None,
    };
    let mut out: Vec<char> = Vec::new();
    let mut i: usize = 0;
    while i < a
        invariant
            a <= rv@.len(),
            i <= a,
            out@ == rv@.take(i as int),
        decreases a - i,
    {
        out.push(rv[i]);
        i += 1;
        assert(out@ =~= rv@.take(i as int));
    }
    let pv = chars_of(repl);
    let ghost front = out@;
    let mut j: usize = 0;
    while j < pv.len()
        invariant
            j <= pv@.len(),
            out@ == front + pv@.take(j as int),
        decreases pv@.len() - j,
    {
        out.push(pv[j]);
        j += 1;
        assert(out@ =~= front + pv@.take(j as int));
    }
    assert(pv@.take(pv@.len() as int) =~= pv@);
    let ghost mid = out@;
    let mut q: usize = b;
    while q < rv.len()
        invariant
            b <= q <= rv@.len(),
            out@ == mid + rv@.subrange(b as int, q as int),
        decreases rv@.len() - q,
    {
        out.push(rv[q]);
        q += 1;
        assert(out@ =~= mid + rv@.subrange(b as int, q as int));
    }
    assert(rv@.subrange(b as int, rv@.len() as int) =~= rv@.skip(b as int));
    Some(string_of(&out))
}

proof fn lemma_index_at_byte_some(s: Seq<char>, b: nat, m: int)
    requires
        0 <= m,
        index_at_byte_from(s, b, m) is Some,
    ensures
        b <= byte_len(s),
    decreases s.len() + 1 - m,
{
    if m <= s.len() {
        if byte_len(s.take(m)) == b {
            lemma_byte_len_prefix(s, m);
        } else {
            lemma_index_at_byte_some(s, b, m + 1);
        }
    }
}

fn run_glossary(text: &str) -> (r: Option<String>)
    ensures
        match r {
            Some(s) => glossary_applied(text@) == Some(s@),
            None => glossary_applied(text@) is None,
        },
{
    let mut cur = text.to_string();
    let mut i: usize = 0;
    while i < 54
        invariant
            i <= 54,
            glossary_applied(text@) == glossary_from(cur@, i as nat),
        decreases 54 - i,
    {
        let (t, p) = glossary_entry(i);
        match glossary_step_exec(&cur, t, p) {
            Some(next) => {
                cur = next;
            },
            None => return None,
        }
        i += 1;
    }
    Some(cur)
}

/// Applies the glossary to a translated text (Albion terms replaced, so
/// that game terms read the same in every translation), for texts on
/// which every cut falls on a character boundary.
pub fn apply_glossary(text: &str) -> (r: String)
    requires
        glossary_applied(text@) is Some,
    ensures
        glossary_applied(text@) == Some(r@),
{
    match run_glossary(text) {
        Some(s) => s,
        None => text.to_string(),
    }
}

/// Applies the glossary where it can be applied; `None` where cutting the
/// text at the offsets found in its lower-cased form would split a
/// character.
pub fn try_apply_glossary(text: &str) -> (r: Option<String>)
    ensures
        match r {
            Some(s) => glossary_applied(text@) == Some(s@),
            None => glossary_applied(text@) is None,
        },
{
    match run_glossary(text) {
        Some(_) => Some(apply_glossary(text)),
        None => None,
    }
}

} // verus!

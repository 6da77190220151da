//! Small operations on text that the rest of the library is built from.

use vstd::prelude::*;
use vstd::string::*;

verus! {

/// Whether two string slices hold the same characters.
pub fn same_text(a: &str, b: &str) -> (r: bool)
    ensures
        r == (a@ == b@),
{
    a.to_owned() == b.to_owned()
}

/// Whether the characters of `prefix` open `text`.
pub fn starts_with(text: &str, prefix: &str) -> (r: bool)
    ensures
        r == prefix@.is_prefix_of(text@),
{
    let n = prefix.unicode_len();
    if text.unicode_len() < n {
        return false;
    }
    let mut i: usize = 0;
    while i < n
        invariant
            n == prefix@.len(),
            n <= text@.len(),
            i <= n,
            forall|j: int| 0 <= j < i ==> text@[j] == prefix@[j],
        decreases n - i,
    {
        if text.get_char(i) != prefix.get_char(i) {
            assert(text@.subrange(0, n as int)[i as int] != prefix@[i as int]);
            return false;
        }
        i += 1;
    }
    assert(text@.subrange(0, n as int) =~= prefix@);
    true
}

/// Calls `String::push`, which appends one character.
#[verifier::external_body]
pub(crate) fn push_char(s: &mut String, c: char)
    ensures
        final(s)@ == old(s)@.push(c),
{
    s.push(c)
}

/// The order of strings: character by character, each by its code point,
/// and a text before those that continue it. True where `a` comes before
/// `b` or equals it.
pub open spec fn precedes(a: Seq<char>, b: Seq<char>) -> bool
    decreases a.len(),
{
    if a.len() == 0 {
        true
    } else if b.len() == 0 {
        false
    } else if a[0] != b[0] {
        (a[0] as int) < (b[0] as int)
    } else {
        precedes(a.skip(1), b.skip(1))
    }
}

/// Whether the first string slice comes before the second in the order
/// of strings, or equals it.
pub fn text_le(a: &str, b: &str) -> (r: bool)
    ensures
        r == precedes(a@, b@),
{
    let la = a.unicode_len();
    let lb = b.unicode_len();
    let mut i: usize = 0;
    proof {
        assert(a@.skip(0) =~= a@);
        assert(b@.skip(0) =~= b@);
    }
    while i < la && i < lb
        invariant
            la == a@.len(),
            lb == b@.len(),
            i <= la,
            i <= lb,
            precedes(a@, b@) == precedes(a@.skip(i as int), b@.skip(i as int)),
        decreases la - i,
    {
        let ca = a.get_char(i);
        let cb = b.get_char(i);
        proof {
            assert(a@.skip(i as int)[0] == ca);
            assert(b@.skip(i as int)[0] == cb);
            assert(a@.skip(i as int).skip(1) =~= a@.skip(i + 1));
            assert(b@.skip(i as int).skip(1) =~= b@.skip(i + 1));
        }
        if ca != cb {
            return (ca as u32) < (cb as u32);
        }
        i += 1;
    }
    i == la
}

/// Of two texts, one precedes the other.
pub proof fn lemma_precedes_total(a: Seq<char>, b: Seq<char>)
    ensures
        precedes(a, b) || precedes(b, a),
    decreases a.len(),
{
    if a.len() > 0 && b.len() > 0 {
        if a[0] == b[0] {
            lemma_precedes_total(a.skip(1), b.skip(1));
        } else {
            assert(a[0] as int != b[0] as int);
        }
    }
}

/// What precedes a text precedes all that the text precedes.
pub proof fn lemma_precedes_transitive(a: Seq<char>, b: Seq<char>, c: Seq<char>)
    requires
        precedes(a, b),
        precedes(b, c),
    ensures
        precedes(a, c),
    decreases a.len(),
{
    if a.len() > 0 && b.len() > 0 && c.len() > 0 && a[0] == b[0] && b[0] == c[0] {
        lemma_precedes_transitive(a.skip(1), b.skip(1), c.skip(1));
    }
}

/// Two texts that precede each other are one text.
pub proof fn lemma_precedes_antisymmetric(a: Seq<char>, b: Seq<char>)
    requires
        precedes(a, b),
        precedes(b, a),
    ensures
        a == b,
    decreases a.len(),
{
    if a.len() > 0 && b.len() > 0 {
        lemma_precedes_antisymmetric(a.skip(1), b.skip(1));
        assert(a =~= seq![a[0]] + a.skip(1));
        assert(b =~= seq![b[0]] + b.skip(1));
    } else {
        assert(a =~= b);
    }
}

/// The character that writes a single decimal digit.
pub open spec fn digit(d: nat) -> char {
    if d == 0 {
        '0'
    } else if d == 1 {
        '1'
    } else if d == 2 {
        '2'
    } else if d == 3 {
        '3'
    } else if d == 4 {
        '4'
    } else if d == 5 {
        '5'
    } else if d == 6 {
        '6'
    } else if d == 7 {
        '7'
    } else if d == 8 {
        '8'
    } else {
        '9'
    }
}

/// A number written in base ten, without sign or leading zeros.
pub open spec fn decimal(n: nat) -> Seq<char>
    decreases n,
{
    if n < 10 {
        seq![digit(n)]
    } else {
        decimal(n / 10).push(digit(n % 10))
    }
}

fn digit_char(d: u64) -> (c: char)
    requires
        d < 10,
    ensures
        c == digit(d as nat),
{
    if d == 0 {
        '0'
    } else if d == 1 {
        '1'
    } else if d == 2 {
        '2'
    } else if d == 3 {
        '3'
    } else if d == 4 {
        '4'
    } else if d == 5 {
        '5'
    } else if d == 6 {
        '6'
    } else if d == 7 {
        '7'
    } else if d == 8 {
        '8'
    } else {
        '9'
    }
}

/// Writes a number in base ten.
pub fn decimal_string(n: u64) -> (r: String)
    ensures
        r@ == decimal(n as nat),
    decreases n,
{
    if n < 10 {
        let mut s = String::new();
        push_char(&mut s, digit_char(n));
        assert(s@ =~= seq![digit(n as nat)]);
        s
    } else {
        let mut s = decimal_string(n / 10);
        push_char(&mut s, digit_char(n % 10));
        s
    }
}

/// The texts that a list holds, as a set.
pub open spec fn text_set(texts: Seq<String>) -> Set<Seq<char>> {
    Set::new(|k: Seq<char>| exists|i: int| 0 <= i < texts.len() && (#[trigger] texts[i])@ == k)
}

/// Whether a list of texts holds the given one.
pub fn holds_text(texts: &Vec<String>, key: &str) -> (r: bool)
    ensures
        r == text_set(texts@).contains(key@),
{
    let wanted = key.to_owned();
    let mut i: usize = 0;
    while i < texts.len()
        invariant
            i <= texts.len(),
            wanted@ == key@,
            forall|j: int| 0 <= j < i ==> (#[trigger] texts@[j])@ != key@,
        decreases texts.len() - i,
    {
        if texts[i] == wanted {
            return true;
        }
        i += 1;
    }
    false
}

/// Whether no text stands twice in a list.
pub open spec fn distinct_texts(texts: Seq<String>) -> bool {
    forall|i: int, j: int| 0 <= i < j < texts.len() ==> texts[i]@ != texts[j]@
}

/// A list with one more text holds what it held and that text.
pub proof fn lemma_text_set_push(texts: Seq<String>, text: String)
    ensures
        text_set(texts.push(text)) == text_set(texts).insert(text@),
{
    let longer = texts.push(text);
    assert forall|k: Seq<char>| text_set(longer).contains(k) implies text_set(texts).insert(
        text@,
    ).contains(k) by {
        let i = choose|i: int| 0 <= i < longer.len() && (#[trigger] longer[i])@ == k;
        if i < texts.len() {
            assert(texts[i]@ == k);
        }
    }
    assert forall|k: Seq<char>| text_set(texts).insert(text@).contains(k) implies text_set(
        longer,
    ).contains(k) by {
        if k == text@ {
            assert(longer[texts.len() as int]@ == k);
        } else {
            let i = choose|i: int| 0 <= i < texts.len() && (#[trigger] texts[i])@ == k;
            assert(longer[i]@ == k);
        }
    }
    assert(text_set(longer) =~= text_set(texts).insert(text@));
}

/// Adds a text to a list that stands for a set, unless the list holds it.
pub(crate) fn add_text(texts: &mut Vec<String>, key: String)
    ensures
        text_set(final(texts)@) == text_set(old(texts)@).insert(key@),
        distinct_texts(old(texts)@) ==> distinct_texts(final(texts)@),
{
    if !holds_text(texts, key.as_str()) {
        proof {
            lemma_text_set_push(texts@, key);
        }
        let ghost before = texts@;
        texts.push(key);
        proof {
            if distinct_texts(before) {
                assert forall|i: int, j: int| 0 <= i < j < texts@.len() implies texts@[i]@
                    != texts@[j]@ by {
                    if j == before.len() {
                        assert(text_set(before).contains(before[i]@));
                    }
                }
            }
        }
    } else {
        proof {
            assert(text_set(texts@) =~= text_set(texts@).insert(key@));
        }
    }
}

/// Takes a text out of a list that stands for a set.
pub(crate) fn remove_text(texts: &mut Vec<String>, key: &str)
    ensures
        text_set(final(texts)@) == text_set(old(texts)@).remove(key@),
{
    let ghost before = texts@;
    let wanted = key.to_owned();
    let mut i: usize = 0;
    while i < texts.len()
        invariant
            i <= texts.len(),
            wanted@ == key@,
            forall|j: int| 0 <= j < i ==> (#[trigger] texts@[j])@ != key@,
            forall|k: Seq<char>| k != key@ ==> (text_set(texts@).contains(k) <==> text_set(
                before,
            ).contains(k)),
        decreases texts.len() - i,
    {
        if texts[i] == wanted {
            let ghost prior = texts@;
            texts.remove(i);
            proof {
                assert forall|k: Seq<char>| k != key@ implies (text_set(texts@).contains(k)
                    <==> text_set(prior).contains(k)) by {
                    if text_set(texts@).contains(k) {
                        let j = choose|j: int| 0 <= j < texts@.len() && (#[trigger] texts@[j])@ == k;
                        if j < i {
                            assert(prior[j]@ == k);
                        } else {
                            assert(prior[j + 1]@ == k);
                        }
                    }
                    if text_set(prior).contains(k) {
                        let j = choose|j: int| 0 <= j < prior.len() && (#[trigger] prior[j])@ == k;
                        if j < i {
                            assert(texts@[j]@ == k);
                        } else {
                            assert(j != i);
                            assert(texts@[j - 1]@ == k);
                        }
                    }
                }
            }
        } else {
            i += 1;
        }
    }
    proof {
        assert(!text_set(texts@).contains(key@));
        assert(text_set(texts@) =~= text_set(before).remove(key@));
    }
}

} // verus!

//! Strings as sequences of characters.

use vstd::prelude::*;

verus! {

/// The characters of `text`, in order.
pub fn chars_of(text: &str) -> (chars: Vec<char>)
    ensures
        chars@ == text@,
{
    let mut chars: Vec<char> = Vec::new();
    for c in it: text.chars()
        invariant
            it.seq() == text@,
            chars@ == text@.take(it.index() as int),
    {
        proof {
            assert(text@.take(it.index() + 1) =~= text@.take(it.index() as int).push(c));
        }
        chars.push(c);
    }
    proof {
        assert(text@.take(text@.len() as int) =~= text@);
    }
    chars
}

/// Whether `a` sorts strictly before `b`: at the first character where they part, `a` either
/// has the smaller one or has already ended.
pub open spec fn lex_less(a: Seq<char>, b: Seq<char>) -> bool
    decreases a.len(),
{
    if b.len() == 0 {
        false
    } else if a.len() == 0 {
        true
    } else if a[0] != b[0] {
        a[0] < b[0]
    } else {
        lex_less(a.drop_first(), b.drop_first())
    }
}

/// Whether `a` sorts strictly before `b`.
pub fn str_less(a: &str, b: &str) -> (less: bool)
    ensures
        less == lex_less(a@, b@),
{
    let mut rest_a = a.chars();
    let mut rest_b = b.chars();
    let ghost mut i: int = 0;
    proof {
        assert(a@.skip(0) =~= a@);
        assert(b@.skip(0) =~= b@);
    }
    loop
        invariant
            0 <= i <= a@.len(),
            i <= b@.len(),
            vstd::std_specs::iter::IteratorSpec::remaining(&rest_a) == a@.skip(i),
            vstd::std_specs::iter::IteratorSpec::remaining(&rest_b) == b@.skip(i),
            lex_less(a@, b@) == lex_less(a@.skip(i), b@.skip(i)),
        decreases a@.len() - i,
    {
        let next_a = rest_a.next();
        let next_b = rest_b.next();
        proof {
            assert(i < a@.len() ==> a@.skip(i).drop_first() =~= a@.skip(i + 1));
            assert(i < b@.len() ==> b@.skip(i).drop_first() =~= b@.skip(i + 1));
        }
        match (next_a, next_b) {
            (_, None) => {
                return false;
            },
            (None, Some(_)) => {
                return true;
            },
            (Some(x), Some(y)) => {
                if x != y {
                    return x < y;
                }
            },
        }
        proof {
            i = i + 1;
        }
    }
}

/// `name` inside the directory `prefix`, where an empty `prefix` is the root.
pub open spec fn joined(prefix: Seq<char>, name: Seq<char>) -> Seq<char> {
    if prefix.len() == 0 {
        name
    } else {
        prefix + seq!['/'] + name
    }
}

/// The path of `name` inside the directory `prefix`, where an empty `prefix` is the root.
pub fn join_path(prefix: &str, name: &str) -> (path: String)
    ensures
        path@ == joined(prefix@, name@),
{
    if prefix.is_empty() {
        name.to_owned()
    } else {
        with_slash(prefix, name)
    }
}

/// `left`, a slash, and `right`.
pub fn with_slash(left: &str, right: &str) -> (text: String)
    ensures
        text@ == left@ + seq!['/'] + right@,
{
    proof {
        reveal_strlit("/");
        assert("/"@ =~= seq!['/']);
    }
    left.to_owned().concat("/").concat(right)
}

/// Nothing sorts before itself.
pub proof fn lemma_lex_less_irreflexive(a: Seq<char>)
    ensures
        !lex_less(a, a),
    decreases a.len(),
{
    if a.len() > 0 {
        lemma_lex_less_irreflexive(a.drop_first());
    }
}

/// The order is transitive.
pub proof fn lemma_lex_less_transitive(a: Seq<char>, b: Seq<char>, c: Seq<char>)
    requires
        lex_less(a, b),
        lex_less(b, c),
    ensures
        lex_less(a, c),
    decreases a.len(),
{
    if a.len() > 0 && a[0] == b[0] && b[0] == c[0] {
        lemma_lex_less_transitive(a.drop_first(), b.drop_first(), c.drop_first());
    }
}

/// Of two different sequences, one sorts before the other.
pub proof fn lemma_lex_less_total(a: Seq<char>, b: Seq<char>)
    ensures
        lex_less(a, b) || a == b || lex_less(b, a),
    decreases a.len(),
{
    if a.len() > 0 && b.len() > 0 && a[0] == b[0] {
        lemma_lex_less_total(a.drop_first(), b.drop_first());
        if a.drop_first() == b.drop_first() {
            assert(a =~= seq![a[0]] + a.drop_first());
            assert(b =~= seq![b[0]] + b.drop_first());
        }
    } else if a.len() == 0 && b.len() == 0 {
        assert(a =~= b);
    }
}

/// The pieces of `path` between slashes. There is always one more piece than there are slashes,
/// so the empty path has a single empty piece.
pub open spec fn components(path: Seq<char>) -> Seq<Seq<char>>
    decreases path.len(),
{
    if path.len() == 0 {
        seq![path]
    } else {
        let before = components(path.drop_last());
        if path.last() == '/' {
            before.push(Seq::empty())
        } else {
            before.drop_last().push(before.last().push(path.last()))
        }
    }
}

/// There is at least one piece.
pub proof fn lemma_components_nonempty(path: Seq<char>)
    ensures
        1 <= components(path).len() <= path.len() + 1,
    decreases path.len(),
{
    if path.len() > 0 {
        lemma_components_nonempty(path.drop_last());
    }
}

/// The pieces of `path` between slashes, in order.
pub fn split_path(path: &str) -> (pieces: Vec<&str>)
    ensures
        pieces@.map_values(|piece: &str| piece@) == components(path@),
        pieces@.len() == components(path@).len(),
        pieces@.len() <= path@.len() + 1,
{
    let chars = chars_of(path);
    let mut pieces: Vec<&str> = Vec::new();
    let mut start: usize = 0;
    let mut i: usize = 0;
    proof {
        assert(path@.take(0) =~= Seq::<char>::empty());
        assert(path@.subrange(0, 0) =~= Seq::<char>::empty());
        assert(components(path@.take(0)) =~= pieces@.map_values(|piece: &str| piece@).push(
            path@.subrange(0, 0),
        ));
    }
    while i < chars.len()
        invariant
            chars@ == path@,
            start <= i <= chars.len(),
            components(path@.take(i as int)) == pieces@.map_values(|piece: &str| piece@).push(
                path@.subrange(start as int, i as int),
            ),
        decreases chars.len() - i,
    {
        let ghost so_far = pieces@.map_values(|piece: &str| piece@);
        let ghost open_piece = path@.subrange(start as int, i as int);
        proof {
            let longer = path@.take(i + 1);
            assert(longer.drop_last() =~= path@.take(i as int));
            assert(longer.last() == chars@[i as int]);
            assert(so_far.push(open_piece).drop_last() =~= so_far);
        }
        if chars[i] == '/' {
            let piece = path.substring_char(start, i);
            pieces.push(piece);
            start = i + 1;
            proof {
                assert(pieces@.map_values(|piece: &str| piece@) =~= so_far.push(open_piece));
                assert(path@.subrange(i + 1, i + 1) =~= Seq::<char>::empty());
            }
        } else {
            proof {
                assert(path@.subrange(start as int, i + 1) =~= open_piece.push(chars@[i as int]));
            }
        }
        i += 1;
    }
    let ghost so_far = pieces@.map_values(|piece: &str| piece@);
    pieces.push(path.substring_char(start, i));
    proof {
        assert(path@.take(i as int) =~= path@);
        assert(pieces@.map_values(|piece: &str| piece@) =~= so_far.push(
            path@.subrange(start as int, i as int),
        ));
        lemma_components_nonempty(path@);
    }
    pieces
}

/// Whether `text` begins with `prefix`.
pub fn starts_with(text: &str, prefix: &str) -> (found: bool)
    ensures
        found == prefix@.is_prefix_of(text@),
{
    let mut rest = text.chars();
    let mut wanted = prefix.chars();
    let ghost mut i: int = 0;
    proof {
        assert(text@.skip(0) =~= text@);
        assert(prefix@.skip(0) =~= prefix@);
    }
    loop
        invariant
            0 <= i <= text@.len(),
            i <= prefix@.len(),
            vstd::std_specs::iter::IteratorSpec::remaining(&rest) == text@.skip(i),
            vstd::std_specs::iter::IteratorSpec::remaining(&wanted) == prefix@.skip(i),
            prefix@.take(i) == text@.take(i),
        decreases prefix@.len() - i,
    {
        let next_wanted = wanted.next();
        let next = rest.next();
        proof {
            assert(i < text@.len() ==> text@.skip(i).drop_first() =~= text@.skip(i + 1));
            assert(i < prefix@.len() ==> prefix@.skip(i).drop_first() =~= prefix@.skip(i + 1));
        }
        match (next_wanted, next) {
            (None, _) => {
                proof {
                    assert(prefix@.take(i) =~= prefix@);
                    assert(text@.take(i) =~= text@.subrange(0, i));
                }
                return true;
            },
            (Some(_), None) => {
                return false;
            },
            (Some(x), Some(y)) => {
                if x != y {
                    proof {
                        if prefix@.is_prefix_of(text@) {
                            assert(prefix@[i] == text@.subrange(0, prefix@.len() as int)[i]);
                        }
                    }
                    return false;
                }
                proof {
                    assert(prefix@.take(i + 1) =~= prefix@.take(i).push(x));
                    assert(text@.take(i + 1) =~= text@.take(i).push(y));
                }
            },
        }
        proof {
            i = i + 1;
        }
    }
}

/// Whether `needle` stands in `text` at position `at`.
pub open spec fn stands_at(text: Seq<char>, needle: Seq<char>, at: int) -> bool {
    &&& 0 <= at <= text.len() - needle.len()
    &&& text.subrange(at, at + needle.len()) == needle
}

/// Whether `needle` stands anywhere in `text`.
pub open spec fn has_text(text: Seq<char>, needle: Seq<char>) -> bool {
    exists|at: int| stands_at(text, needle, at)
}

/// Whether `needle` stands anywhere in `text`.
pub fn contains_text(text: &str, needle: &str) -> (found: bool)
    ensures
        found == has_text(text@, needle@),
{
    let chars = chars_of(text);
    let wanted = chars_of(needle);
    let mut at: usize = 0;
    while at <= chars.len() && wanted.len() <= chars.len() - at
        invariant
            chars@ == text@,
            wanted@ == needle@,
            at <= chars.len() + 1,
            forall|k: int| 0 <= k < at ==> !stands_at(text@, needle@, k),
        decreases chars.len() + 1 - at,
    {
        let mut j: usize = 0;
        while j < wanted.len() && chars[at + j] == wanted[j]
            invariant
                chars@ == text@,
                wanted@ == needle@,
                at + wanted.len() <= chars.len(),
                j <= wanted.len(),
                forall|k: int| 0 <= k < j ==> chars@[at + k] == wanted@[k],
            decreases wanted.len() - j,
        {
            j += 1;
        }
        if j == wanted.len() {
            proof {
                assert(text@.subrange(at as int, at + needle@.len()) =~= needle@);
                assert(stands_at(text@, needle@, at as int));
            }
            return true;
        }
        proof {
            if stands_at(text@, needle@, at as int) {
                assert(text@.subrange(at as int, at + needle@.len())[j as int] == needle@[j as int]);
            }
        }
        at += 1;
    }
    proof {
        assert forall|k: int| !stands_at(text@, needle@, k) by {}
    }
    false
}

/// The characters with the Unicode property White_Space.
pub open spec fn is_white(c: char) -> bool {
    ||| '\u{9}' <= c <= '\u{d}'
    ||| c == ' '
    ||| c == '\u{85}'
    ||| c == '\u{a0}'
    ||| c == '\u{1680}'
    ||| '\u{2000}' <= c <= '\u{200a}'
    ||| c == '\u{2028}'
    ||| c == '\u{2029}'
    ||| c == '\u{202f}'
    ||| c == '\u{205f}'
    ||| c == '\u{3000}'
}

/// Whether `c` has the Unicode property White_Space.
pub fn is_whitespace(c: char) -> (white: bool)
    ensures
        white == is_white(c),
{
    ('\u{9}' <= c && c <= '\u{d}') || c == ' ' || c == '\u{85}' || c == '\u{a0}' || c == '\u{1680}'
        || ('\u{2000}' <= c && c <= '\u{200a}') || c == '\u{2028}' || c == '\u{2029}' || c
        == '\u{202f}' || c == '\u{205f}' || c == '\u{3000}'
}

/// Whether `text` holds nothing but whitespace.
pub open spec fn all_white(text: Seq<char>) -> bool {
    forall|i: int| 0 <= i < text.len() ==> is_white(#[trigger] text[i])
}

/// Whether `text` holds nothing but whitespace.
pub fn is_blank(text: &str) -> (blank: bool)
    ensures
        blank == all_white(text@),
{
    let chars = chars_of(text);
    let mut i: usize = 0;
    while i < chars.len()
        invariant
            chars@ == text@,
            i <= chars.len(),
            forall|k: int| 0 <= k < i ==> is_white(#[trigger] chars@[k]),
        decreases chars.len() - i,
    {
        if !is_whitespace(chars[i]) {
            return false;
        }
        i += 1;
    }
    true
}

/// The decimal digit of a number below ten.
pub open spec fn digit(n: nat) -> char {
    if n == 0 {
        '0'
    } else if n == 1 {
        '1'
    } else if n == 2 {
        '2'
    } else if n == 3 {
        '3'
    } else if n == 4 {
        '4'
    } else if n == 5 {
        '5'
    } else if n == 6 {
        '6'
    } else if n == 7 {
        '7'
    } else if n == 8 {
        '8'
    } else {
        '9'
    }
}

/// `n` written in decimal, without leading zeros.
pub open spec fn decimal(n: nat) -> Seq<char>
    decreases n,
{
    if n < 10 {
        seq![digit(n)]
    } else {
        decimal(n / 10).push(digit(n % 10))
    }
}

fn digit_text(n: u64) -> (text: &'static str)
    requires
        n < 10,
    ensures
        text@ == seq![digit(n as nat)],
{
    proof {
        reveal_strlit("0");
        reveal_strlit("1");
        reveal_strlit("2");
        reveal_strlit("3");
        reveal_strlit("4");
        reveal_strlit("5");
        reveal_strlit("6");
        reveal_strlit("7");
        reveal_strlit("8");
        reveal_strlit("9");
    }
    let text = if n == 0 {
        "0"
    } else if n == 1 {
        "1"
    } else if n == 2 {
        "2"
    } else if n == 3 {
        "3"
    } else if n == 4 {
        "4"
    } else if n == 5 {
        "5"
    } else if n == 6 {
        "6"
    } else if n == 7 {
        "7"
    } else if n == 8 {
        "8"
    } else {
        "9"
    };
    proof {
        assert(text@ =~= seq![digit(n as nat)]);
    }
    text
}

/// `n` written in decimal.
pub fn decimal_text(n: u64) -> (text: String)
    ensures
        text@ == decimal(n as nat),
    decreases n,
{
    if n < 10 {
        digit_text(n).to_owned()
    } else {
        let text = decimal_text(n / 10).concat(digit_text(n % 10));
        proof {
            assert(text@ =~= decimal(n as nat));
        }
        text
    }
}

/// Whether `text` has no slash in it.
pub open spec fn slash_free(text: Seq<char>) -> bool {
    forall|i: int| 0 <= i < text.len() ==> #[trigger] text[i] != '/'
}

/// `pieces` with a slash between each two.
pub open spec fn rejoined(pieces: Seq<Seq<char>>) -> Seq<char>
    decreases pieces.len(),
{
    if pieces.len() == 0 {
        Seq::empty()
    } else if pieces.len() == 1 {
        pieces[0]
    } else {
        rejoined(pieces.drop_last()) + seq!['/'] + pieces.last()
    }
}

/// No piece of a path has a slash in it.
pub proof fn law_components_are_slash_free(path: Seq<char>)
    ensures
        forall|i: int|
            0 <= i < components(path).len() ==> slash_free(#[trigger] components(path)[i]),
    decreases path.len(),
{
    if path.len() > 0 {
        let before = components(path.drop_last());
        law_components_are_slash_free(path.drop_last());
        lemma_components_nonempty(path.drop_last());
        assert forall|i: int| 0 <= i < components(path).len() implies slash_free(
            #[trigger] components(path)[i],
        ) by {
            if i < before.len() - 1 {
                assert(components(path)[i] == before[i]);
            } else if i == before.len() - 1 {
                assert(slash_free(before[i]));
            }
        }
    }
}

/// Putting the pieces of a path back together gives the path.
pub proof fn law_components_rejoin(path: Seq<char>)
    ensures
        rejoined(components(path)) == path,
    decreases path.len(),
{
    if path.len() > 0 {
        let front = path.drop_last();
        let before = components(front);
        let after = components(path);
        law_components_rejoin(front);
        lemma_components_nonempty(front);
        assert(front.push(path.last()) =~= path);
        if path.last() == '/' {
            assert(after.drop_last() =~= before);
            assert(rejoined(after) =~= path);
        } else {
            assert(after.drop_last() =~= before.drop_last());
            assert(rejoined(after) =~= path);
        }
    }
}

/// A slash splits a path: the pieces are those before it and those behind it.
pub proof fn law_components_split_at_slash(front: Seq<char>, back: Seq<char>)
    ensures
        components(front + seq!['/'] + back) == components(front) + components(back),
    decreases back.len(),
{
    let path = front + seq!['/'] + back;
    lemma_components_nonempty(back);
    if back.len() == 0 {
        assert(path.drop_last() =~= front);
        assert(back =~= Seq::<char>::empty());
        assert(components(path) =~= components(front) + components(back));
    } else {
        let rest = back.drop_last();
        assert(path.drop_last() =~= front + seq!['/'] + rest);
        assert(path.last() == back.last());
        law_components_split_at_slash(front, rest);
        lemma_components_nonempty(rest);
        let before = components(front) + components(rest);
        assert(before.last() == components(rest).last());
        assert(before.drop_last() =~= components(front) + components(rest).drop_last());
        assert(components(path) =~= components(front) + components(back));
    }
}

/// A path without slashes is its own single piece.
pub proof fn lemma_components_single(name: Seq<char>)
    requires
        slash_free(name),
    ensures
        components(name) == seq![name],
    decreases name.len(),
{
    if name.len() > 0 {
        let front = name.drop_last();
        assert forall|i: int| 0 <= i < front.len() implies #[trigger] front[i] != '/' by {
            assert(front[i] == name[i]);
        }
        lemma_components_single(front);
        assert(name.last() == name[name.len() - 1]);
        assert(front.push(name.last()) =~= name);
        assert(components(name) =~= seq![name]);
    } else {
        assert(components(name) =~= seq![name]);
    }
}

/// The order of texts goes by the first character where they part. One that ends there comes
/// first.
pub proof fn law_order_goes_by_the_first_difference(a: Seq<char>, b: Seq<char>, k: int)
    requires
        0 <= k <= a.len(),
        k <= b.len(),
        forall|i: int| 0 <= i < k ==> #[trigger] a[i] == b[i],
    ensures
        k < a.len() && k < b.len() && a[k] != b[k] ==> lex_less(a, b) == (a[k] < b[k]),
        k == a.len() && k < b.len() ==> lex_less(a, b),
        k == b.len() ==> !lex_less(a, b),
    decreases k,
{
    if k > 0 {
        let rest_a = a.drop_first();
        let rest_b = b.drop_first();
        assert(a[0] == b[0]);
        assert forall|i: int| 0 <= i < k - 1 implies #[trigger] rest_a[i] == rest_b[i] by {
            assert(a[i + 1] == b[i + 1]);
        }
        law_order_goes_by_the_first_difference(rest_a, rest_b, k - 1);
    }
}

/// The number that a text of decimal digits stands for.
pub open spec fn number_in(text: Seq<char>) -> int
    decreases text.len(),
{
    if text.len() == 0 {
        0
    } else {
        10 * number_in(text.drop_last()) + (text.last() as int - '0' as int)
    }
}

/// A number is written in digits that stand for it, with no zero in front but for zero itself.
pub proof fn law_numbers_read_back(n: nat)
    ensures
        number_in(decimal(n)) == n,
        decimal(n).len() > 0,
        forall|i: int| 0 <= i < decimal(n).len() ==> '0' <= #[trigger] decimal(n)[i] <= '9',
        n > 0 ==> decimal(n)[0] != '0',
    decreases n,
{
    if n < 10 {
        assert(seq![digit(n)].drop_last() =~= Seq::<char>::empty());
        assert(number_in(Seq::<char>::empty()) == 0);
    } else {
        let front = decimal(n / 10);
        law_numbers_read_back(n / 10);
        assert(decimal(n).drop_last() =~= front);
        assert(decimal(n)[0] == front[0]);
        assert forall|i: int| 0 <= i < decimal(n).len() implies '0' <= #[trigger] decimal(n)[i]
            <= '9' by {
            if i < front.len() {
                assert(decimal(n)[i] == front[i]);
            }
        }
    }
}

/// Whitespace is what Unicode calls so: the controls from tab to carriage return, the space, and
/// the spaces and separators beyond ASCII. No letter, digit or sign of ASCII is.
pub proof fn law_whitespace_is_what_unicode_calls_so(c: char)
    ensures
        c <= '\u{7f}' ==> (is_white(c) <==> c == ' ' || ('\t' <= c <= '\r')),
        '!' <= c <= '~' ==> !is_white(c),
        is_white(c) && c > '\u{7f}' ==> c == '\u{85}' || c == '\u{a0}' || c == '\u{1680}' || (
        '\u{2000}' <= c <= '\u{200a}') || c == '\u{2028}' || c == '\u{2029}' || c == '\u{202f}' || c
            == '\u{205f}' || c == '\u{3000}',
        c == '\u{85}' || c == '\u{a0}' || c == '\u{1680}' || c == '\u{2028}' || c == '\u{2029}' || c
            == '\u{202f}' || c == '\u{205f}' || c == '\u{3000}' ==> is_white(c),
        '\u{2000}' <= c <= '\u{200a}' ==> is_white(c),
{
}

/// A name inside a directory is reached over the directory, a slash, and the name. At the root it
/// is the name alone.
pub proof fn law_joined_path_goes_through_the_directory(prefix: Seq<char>, name: Seq<char>)
    ensures
        prefix.len() == 0 ==> joined(prefix, name) == name,
        prefix.len() > 0 ==> {
            let path = joined(prefix, name);
            &&& path.len() == prefix.len() + 1 + name.len()
            &&& path.take(prefix.len() as int) == prefix
            &&& path[prefix.len() as int] == '/'
            &&& path.skip(prefix.len() as int + 1) == name
        },
{
    if prefix.len() > 0 {
        let path = joined(prefix, name);
        assert(path.take(prefix.len() as int) =~= prefix);
        assert(path.skip(prefix.len() as int + 1) =~= name);
    }
}

/// A text stands in another exactly where some stretch of the other is that text.
pub proof fn law_text_is_found_where_it_stands(
    before: Seq<char>,
    needle: Seq<char>,
    behind: Seq<char>,
)
    ensures
        has_text(before + needle + behind, needle),
        before.len() < needle.len() ==> !has_text(before, needle),
{
    let text = before + needle + behind;
    assert(text.subrange(before.len() as int, before.len() as int + needle.len()) =~= needle);
    assert(stands_at(text, needle, before.len() as int));
}

/// A text is blank exactly where no visible character is in it.
pub proof fn law_blank_text_shows_nothing(text: Seq<char>)
    ensures
        all_white(text) <==> !exists|i: int| 0 <= i < text.len() && !is_white(#[trigger] text[i]),
{
}

} // verus!

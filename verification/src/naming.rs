use vstd::prelude::*;
use vstd::string::{StrSliceExecFns, StringExecFns};

verus! {

/// Names what `char::is_uppercase` returns: whether the char has Unicode's
/// `Uppercase` property.
pub uninterp spec fn char_is_uppercase(c: char) -> bool;

/// Names the first char that `char::to_lowercase` yields.
pub uninterp spec fn char_lowercase_first(c: char) -> char;

/// Calls `char::is_uppercase`. Trusted: the result is the name
/// `char_is_uppercase`; among ASCII chars exactly `'A'..='Z'` are uppercase.
#[verifier::external_body]
fn is_uppercase(c: char) -> (r: bool)
    ensures
        r == char_is_uppercase(c),
        (c as u32) < 128 ==> (r <==> ('A' <= c && c <= 'Z')),
{
    c.is_uppercase()
}

/// Calls `char::to_lowercase` and takes its first char (the iterator always
/// yields at least one). Trusted: the result is the name `char_lowercase_first`;
/// an ASCII capital letter maps to its small letter (`ascii_lowercase`).
#[verifier::external_body]
fn to_lowercase_first(c: char) -> (r: char)
    ensures
        r == char_lowercase_first(c),
        ('A' <= c && c <= 'Z') ==> r == ascii_lowercase(c),
{
    c.to_lowercase().next().unwrap()
}

/// Calls `String::push`. Trusted: the char is appended at the end.
#[verifier::external_body]
fn push_char(s: &mut String, c: char)
    ensures
        final(s)@ == old(s)@.push(c),
{
    s.push(c)
}

/// The small letter of an ASCII capital: 32 code points higher.
pub open spec fn ascii_lowercase(c: char) -> char {
    ((c as u32) + 32) as char
}

/// Every char is ASCII.
pub open spec fn all_ascii(s: Seq<char>) -> bool {
    forall|i: int| 0 <= i < s.len() ==> (#[trigger] s[i] as u32) < 128
}

/// `snake_case` on ASCII text: each capital `A`..`Z` becomes its small letter,
/// preceded by `_` unless it opens the result; other chars stay.
pub open spec fn ascii_snake_case(s: Seq<char>) -> Seq<char>
    decreases s.len(),
{
    if s.len() == 0 {
        Seq::empty()
    } else {
        let prefix = ascii_snake_case(s.drop_last());
        let c = s.last();
        if 'A' <= c && c <= 'Z' {
            if prefix.len() > 0 {
                prefix.push('_').push(ascii_lowercase(c))
            } else {
                prefix.push(ascii_lowercase(c))
            }
        } else {
            prefix.push(c)
        }
    }
}

/// No char is a capital `A`..`Z`.
pub open spec fn no_ascii_capitals(s: Seq<char>) -> bool {
    forall|i: int| 0 <= i < s.len() ==> !('A' <= #[trigger] s[i] && s[i] <= 'Z')
}

proof fn lemma_ascii_lowercase(c: char)
    requires
        'A' <= c && c <= 'Z',
    ensures
        (ascii_lowercase(c) as u32) < 128,
        !('A' <= ascii_lowercase(c) && ascii_lowercase(c) <= 'Z'),
{
    assert((ascii_lowercase(c) as u32) == (c as u32) + 32);
}

/// The snake case of ASCII text is ASCII text without capitals.
proof fn lemma_ascii_snake_case_output(s: Seq<char>)
    requires
        all_ascii(s),
    ensures
        all_ascii(ascii_snake_case(s)),
        no_ascii_capitals(ascii_snake_case(s)),
    decreases s.len(),
{
    if s.len() > 0 {
        assert(all_ascii(s.drop_last())) by {
            assert forall|i: int| 0 <= i < s.drop_last().len() implies (#[trigger] s.drop_last()[i]
                as u32) < 128 by {
                assert(s.drop_last()[i] == s[i]);
            }
        }
        lemma_ascii_snake_case_output(s.drop_last());
        let c = s.last();
        assert((c as u32) < 128) by {
            assert(s[s.len() - 1] == c);
        }
        if 'A' <= c && c <= 'Z' {
            lemma_ascii_lowercase(c);
        }
    }
}

/// Text without capitals is its own snake case.
proof fn lemma_ascii_snake_case_fixed(t: Seq<char>)
    requires
        no_ascii_capitals(t),
    ensures
        ascii_snake_case(t) == t,
    decreases t.len(),
{
    if t.len() > 0 {
        assert(no_ascii_capitals(t.drop_last())) by {
            assert forall|i: int| 0 <= i < t.drop_last().len() implies !('A' <= #[trigger] t.drop_last()[i]
                && t.drop_last()[i] <= 'Z') by {
                assert(t.drop_last()[i] == t[i]);
            }
        }
        lemma_ascii_snake_case_fixed(t.drop_last());
        assert(t[t.len() - 1] == t.last());
        assert(t.drop_last().push(t.last()) =~= t);
    }
}

/// On ASCII text, taking the snake case twice gives the same as once.
pub proof fn law_ascii_snake_case_idempotent(s: Seq<char>)
    requires
        all_ascii(s),
    ensures
        all_ascii(ascii_snake_case(s)),
        ascii_snake_case(ascii_snake_case(s)) == ascii_snake_case(s),
{
    lemma_ascii_snake_case_output(s);
    lemma_ascii_snake_case_fixed(ascii_snake_case(s));
}

/// The snake-case form of a name: each uppercase char is replaced by its
/// lowercase form, preceded by `_` unless it opens the result; other chars stay.
pub open spec fn snake_case(s: Seq<char>) -> Seq<char>
    decreases s.len(),
{
    if s.len() == 0 {
        Seq::empty()
    } else {
        let prefix = snake_case(s.drop_last());
        let c = s.last();
        if char_is_uppercase(c) {
            if prefix.len() > 0 {
                prefix.push('_').push(char_lowercase_first(c))
            } else {
                prefix.push(char_lowercase_first(c))
            }
        } else {
            prefix.push(c)
        }
    }
}

pub fn to_snake_case(s: &str) -> (r: String)
    ensures
        r@ == snake_case(s@),
        all_ascii(s@) ==> r@ == ascii_snake_case(s@),
{
    broadcast use vstd::string::group_string_axioms;

    let mut result = String::new();
    let ghost chars = s@;
    for ch in it: s.chars()
        invariant
            chars == s@,
            it.seq() == chars,
            result@ == snake_case(chars.take(it.index() as int)),
            all_ascii(chars.take(it.index() as int)) ==> result@ == ascii_snake_case(
                chars.take(it.index() as int),
            ),
    {
        let ghost i = it.index();
        proof {
            assert(chars.take(i + 1).drop_last() =~= chars.take(i as int));
            assert(chars.take(i + 1).last() == chars[i as int]);
            if all_ascii(chars.take(i + 1)) {
                assert forall|j: int| 0 <= j < chars.take(i as int).len() implies (#[trigger] chars.take(
                    i as int,
                )[j] as u32) < 128 by {
                    assert(chars.take(i as int)[j] == chars.take(i + 1)[j]);
                }
                assert(chars.take(i + 1)[i as int] == chars[i as int]);
            }
        }
        if is_uppercase(ch) {
            if !result.as_str().is_empty() {
                push_char(&mut result, '_');
            }
            push_char(&mut result, to_lowercase_first(ch));
        } else {
            push_char(&mut result, ch);
        }
    }
    proof {
        assert(chars.take(chars.len() as int) =~= chars);
    }
    result
}

/// The name ends with `Init`.
pub open spec fn ends_with_init(s: Seq<char>) -> bool {
    s.len() >= 4 && s.subrange(s.len() - 4, s.len() as int) == seq!['I', 'n', 'i', 't']
}

/// A name ends with `Init` exactly when it has at least four chars and its
/// last four are `I`, `n`, `i`, `t`, in that order; so `Init` after any
/// prefix is accepted, and any other last four chars (as in `EnemyUnit`) are
/// refused.
pub proof fn law_ends_with_init_chars(s: Seq<char>)
    ensures
        ends_with_init(s) <==> (s.len() >= 4 && s[s.len() - 4] == 'I' && s[s.len() - 3] == 'n'
            && s[s.len() - 2] == 'i' && s[s.len() - 1] == 't'),
        ends_with_init(s + seq!['I', 'n', 'i', 't']),
{
    let n = s.len();
    if n >= 4 {
        let tail = s.subrange(n - 4, n as int);
        if ends_with_init(s) {
            assert(tail[0] == s[n - 4]);
            assert(tail[1] == s[n - 3]);
            assert(tail[2] == s[n - 2]);
            assert(tail[3] == s[n - 1]);
        }
        if s[n - 4] == 'I' && s[n - 3] == 'n' && s[n - 2] == 'i' && s[n - 1] == 't' {
            assert(tail =~= seq!['I', 'n', 'i', 't']);
        }
    }
    let t = s + seq!['I', 'n', 'i', 't'];
    assert(t.subrange(t.len() - 4, t.len() as int) =~= seq!['I', 'n', 'i', 't']);
}

pub fn has_init_suffix(name: &str) -> (r: bool)
    ensures
        r == ends_with_init(name@),
        r <==> (name@.len() >= 4 && name@[name@.len() - 4] == 'I' && name@[name@.len() - 3] == 'n'
            && name@[name@.len() - 2] == 'i' && name@[name@.len() - 1] == 't'),
{
    let n = name.unicode_len();
    if n < 4 {
        return false;
    }
    let r = name.get_char(n - 4) == 'I' && name.get_char(n - 3) == 'n' && name.get_char(n - 2)
        == 'i' && name.get_char(n - 1) == 't';
    proof {
        let tail = name@.subrange(n - 4, n as int);
        if r {
            assert(tail =~= seq!['I', 'n', 'i', 't']);
        } else if tail == seq!['I', 'n', 'i', 't'] {
            assert(tail[0] == name@[n - 4]);
            assert(tail[1] == name@[n - 3]);
            assert(tail[2] == name@[n - 2]);
            assert(tail[3] == name@[n - 1]);
        }
        law_ends_with_init_chars(name@);
    }
    r
}

/// What the `init` attribute derives from the name of the struct it marks:
/// the name of the function that asserts the struct's trait impls,
/// `_assert_<snake case name>_implements_traits`, or, for a name that does not
/// end with `Init`, the error message.
pub fn init_assertion_name(struct_name: &str) -> (r: Result<String, String>)
    ensures
        r is Ok <==> ends_with_init(struct_name@),
        r matches Ok(name) ==> name@ == "_assert_"@ + snake_case(struct_name@)
            + "_implements_traits"@,
        r matches Err(msg) ==> msg@ == "struct name '"@ + struct_name@
            + "' must end with 'Init' suffix"@,
{
    if !has_init_suffix(struct_name) {
        let mut msg = String::from_str("struct name '");
        msg.append(struct_name);
        msg.append("' must end with 'Init' suffix");
        return Err(msg);
    }
    let snake = to_snake_case(struct_name);
    let mut name = String::from_str("_assert_");
    name.append(snake.as_str());
    name.append("_implements_traits");
    Ok(name)
}

/// What the `init` attribute decides about the item it marks, in this order:
/// the item must be a struct, its fields must be named, and its name must
/// end with `Init`. Returns the assertion function's name, or the message of
/// the first rule the item breaks.
pub fn check_init_item(is_struct: bool, has_named_fields: bool, struct_name: &str) -> (r: Result<
    String,
    String,
>)
    ensures
        !is_struct ==> (r matches Err(msg) && msg@ == "init can only be used on structs"@),
        is_struct && !has_named_fields ==> (r matches Err(msg) && msg@
            == "init requires named fields"@),
        is_struct && has_named_fields ==> {
            &&& (r is Ok <==> ends_with_init(struct_name@))
            &&& (r matches Ok(name) ==> name@ == "_assert_"@ + snake_case(struct_name@)
                + "_implements_traits"@)
            &&& (r matches Err(msg) ==> msg@ == "struct name '"@ + struct_name@
                + "' must end with 'Init' suffix"@)
        },
{
    if !is_struct {
        return Err(String::from_str("init can only be used on structs"));
    }
    if !has_named_fields {
        return Err(String::from_str("init requires named fields"));
    }
    init_assertion_name(struct_name)
}

} // verus!

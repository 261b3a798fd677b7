//! The text pieces of the SVG pictures: node colours by label, and XML escaping.

use vstd::prelude::*;

verus! {

/// The fill colour of a node with label `label`, as `#rrggbb` text.
pub open spec fn color_of(label: u32) -> Seq<char> {
    if label == 1 {
        seq!['#', '4', 'a', '9', '0', 'd', '9']
    } else if label == 2 {
        seq!['#', 'e', '8', 'a', '8', '3', '8']
    } else if label == 3 {
        seq!['#', 'e', '8', '4', 'c', '4', 'c']
    } else if label == 4 {
        seq!['#', '6', 'a', 'b', '0', '4', 'c']
    } else if label == 5 {
        seq!['#', '9', 'b', '5', '9', 'b', '6']
    } else if label == 6 {
        seq!['#', '1', 'a', 'b', 'c', '9', 'c']
    } else {
        seq!['#', '8', '8', '8', '8', '8', '8']
    }
}

/// Color for each label (1-indexed)
pub fn label_color(label: u32) -> (r: &'static str)
    ensures
        r@ == color_of(label),
{
    match label {
        1 => {
            proof { reveal_strlit("#4a90d9"); }
            "#4a90d9"
        },
        2 => {
            proof { reveal_strlit("#e8a838"); }
            "#e8a838"
        },
        3 => {
            proof { reveal_strlit("#e84c4c"); }
            "#e84c4c"
        },
        4 => {
            proof { reveal_strlit("#6ab04c"); }
            "#6ab04c"
        },
        5 => {
            proof { reveal_strlit("#9b59b6"); }
            "#9b59b6"
        },
        6 => {
            proof { reveal_strlit("#1abc9c"); }
            "#1abc9c"
        },
        _ => {
            proof { reveal_strlit("#888888"); }
            "#888888"
        },
    }
}

/// The node colours: labels 1 to 6 get six pairwise different colours, none of
/// them the grey that every other label gets.
pub proof fn lemma_colours_distinct()
    ensures
        forall|l1: u32, l2: u32| 1 <= l1 <= 6 && 1 <= l2 <= 6 && l1 != l2 ==> #[trigger] color_of(l1) != #[trigger] color_of(l2),
        forall|l: u32| 1 <= l <= 6 ==> #[trigger] color_of(l) != seq!['#', '8', '8', '8', '8', '8', '8'],
        forall|l: u32| !(1 <= l <= 6) ==> #[trigger] color_of(l) == seq!['#', '8', '8', '8', '8', '8', '8'],
{
    assert forall|l1: u32, l2: u32| 1 <= l1 <= 6 && 1 <= l2 <= 6 && l1 != l2 implies #[trigger] color_of(l1)
        != #[trigger] color_of(l2) by {
        if color_of(l1) == color_of(l2) {
            assert(color_of(l1)[1] == color_of(l2)[1]);
            assert(color_of(l1)[3] == color_of(l2)[3]);
        }
    }
    assert forall|l: u32| 1 <= l <= 6 implies #[trigger] color_of(l) != seq!['#', '8', '8', '8', '8', '8', '8'] by {
        if color_of(l) == seq!['#', '8', '8', '8', '8', '8', '8'] {
            assert(color_of(l)[1] == seq!['#', '8', '8', '8', '8', '8', '8'][1]);
        }
    }
}

/// The palette, label by label from 1 to 6: blue, amber, red, green, purple,
/// teal, each as `#rrggbb` text.
pub proof fn lemma_palette()
    ensures
        Seq::new(6, |i: int| color_of((i + 1) as u32)) == seq![
            seq!['#', '4', 'a', '9', '0', 'd', '9'],
            seq!['#', 'e', '8', 'a', '8', '3', '8'],
            seq!['#', 'e', '8', '4', 'c', '4', 'c'],
            seq!['#', '6', 'a', 'b', '0', '4', 'c'],
            seq!['#', '9', 'b', '5', '9', 'b', '6'],
            seq!['#', '1', 'a', 'b', 'c', '9', 'c'],
        ],
{
    let p = Seq::new(6, |i: int| color_of((i + 1) as u32));
    let q = seq![
        seq!['#', '4', 'a', '9', '0', 'd', '9'],
        seq!['#', 'e', '8', 'a', '8', '3', '8'],
        seq!['#', 'e', '8', '4', 'c', '4', 'c'],
        seq!['#', '6', 'a', 'b', '0', '4', 'c'],
        seq!['#', '9', 'b', '5', '9', 'b', '6'],
        seq!['#', '1', 'a', 'b', 'c', '9', 'c'],
    ];
    assert forall|i: int| 0 <= i < 6 implies p[i] == q[i] by {
        if i == 0 {
        } else if i == 1 {
        } else if i == 2 {
        } else if i == 3 {
        } else if i == 4 {
        } else {
        }
    }
    assert(p =~= q);
}

/// The XML text standing for the character `c`: the five markup characters
/// become entity references, every other character stands for itself.
pub open spec fn escaped_char(c: char) -> Seq<char> {
    if c == '&' {
        seq!['&', 'a', 'm', 'p', ';']
    } else if c == '<' {
        seq!['&', 'l', 't', ';']
    } else if c == '>' {
        seq!['&', 'g', 't', ';']
    } else if c == '"' {
        seq!['&', 'q', 'u', 'o', 't', ';']
    } else if c == '\'' {
        seq!['&', 'a', 'p', 'o', 's', ';']
    } else {
        seq![c]
    }
}

/// The XML text of `s`, character by character.
pub open spec fn escaped(s: Seq<char>) -> Seq<char>
    decreases s.len(),
{
    if s.len() == 0 {
        seq![]
    } else {
        escaped(s.drop_last()) + escaped_char(s.last())
    }
}

/// A markup character of XML text and attributes.
pub open spec fn is_markup(c: char) -> bool {
    c == '&' || c == '<' || c == '>' || c == '"' || c == '\''
}

/// Escaping leaves text without markup unchanged, escapes pieces
/// independently, never leaves `<`, `>`, `"` or `'` in its output, and turns
/// the five markup characters into the entity references `&amp;`, `&lt;`,
/// `&gt;`, `&quot;` and `&apos;`.
pub proof fn lemma_escaping(a: Seq<char>, b: Seq<char>)
    ensures
        (forall|i: int| 0 <= i < a.len() ==> !is_markup(#[trigger] a[i])) ==> escaped(a) == a,
        escaped(a + b) == escaped(a) + escaped(b),
        forall|i: int| 0 <= i < escaped(a).len() ==> #[trigger] escaped(a)[i] != '<' && escaped(a)[i] != '>'
            && escaped(a)[i] != '"' && escaped(a)[i] != '\'',
        escaped(seq!['&']) == seq!['&', 'a', 'm', 'p', ';'],
        escaped(seq!['<']) == seq!['&', 'l', 't', ';'],
        escaped(seq!['>']) == seq!['&', 'g', 't', ';'],
        escaped(seq!['"']) == seq!['&', 'q', 'u', 'o', 't', ';'],
        escaped(seq!['\'']) == seq!['&', 'a', 'p', 'o', 's', ';'],
{
    lemma_escaped_plain(a);
    lemma_escaped_concat(a, b);
    lemma_escaped_safe(a);
    lemma_escaped_one('&');
    lemma_escaped_one('<');
    lemma_escaped_one('>');
    lemma_escaped_one('"');
    lemma_escaped_one('\'');
}

proof fn lemma_escaped_one(c: char)
    ensures
        escaped(seq![c]) == escaped_char(c),
{
    let s = seq![c];
    assert(s.drop_last() =~= Seq::<char>::empty());
    assert(s.last() == c);
    assert(escaped(Seq::<char>::empty()) =~= Seq::<char>::empty());
    assert(escaped(s) =~= escaped_char(c));
}

proof fn lemma_escaped_plain(a: Seq<char>)
    ensures
        (forall|i: int| 0 <= i < a.len() ==> !is_markup(#[trigger] a[i])) ==> escaped(a) == a,
    decreases a.len(),
{
    if a.len() > 0 {
        lemma_escaped_plain(a.drop_last());
        if forall|i: int| 0 <= i < a.len() ==> !is_markup(#[trigger] a[i]) {
            assert forall|i: int| 0 <= i < a.drop_last().len() implies !is_markup(#[trigger] a.drop_last()[i]) by {
                assert(a.drop_last()[i] == a[i]);
            }
            assert(!is_markup(a[a.len() - 1]));
            assert(a.drop_last().push(a.last()) =~= a);
        }
    }
}

proof fn lemma_escaped_concat(a: Seq<char>, b: Seq<char>)
    ensures
        escaped(a + b) == escaped(a) + escaped(b),
    decreases b.len(),
{
    if b.len() == 0 {
        assert(a + b =~= a);
        assert(escaped(b) =~= Seq::<char>::empty());
        assert(escaped(a) + escaped(b) =~= escaped(a));
    } else {
        lemma_escaped_concat(a, b.drop_last());
        assert((a + b).drop_last() =~= a + b.drop_last());
        assert((a + b).last() == b.last());
        assert(escaped(a + b) =~= escaped(a) + escaped(b));
    }
}

proof fn lemma_escaped_safe(a: Seq<char>)
    ensures
        forall|i: int| 0 <= i < escaped(a).len() ==> #[trigger] escaped(a)[i] != '<' && escaped(a)[i] != '>'
            && escaped(a)[i] != '"' && escaped(a)[i] != '\'',
    decreases a.len(),
{
    if a.len() > 0 {
        lemma_escaped_safe(a.drop_last());
        let e0 = escaped(a.drop_last());
        let e1 = escaped_char(a.last());
        assert forall|i: int| 0 <= i < escaped(a).len() implies #[trigger] escaped(a)[i] != '<' && escaped(a)[i] != '>'
            && escaped(a)[i] != '"' && escaped(a)[i] != '\'' by {
            if i < e0.len() {
                assert(escaped(a)[i] == e0[i]);
            } else {
                assert(escaped(a)[i] == e1[i - e0.len()]);
            }
        }
    }
}

/// `String::push`: appends the character to the string.
#[verifier::external_body]
fn push_char(s: &mut String, c: char)
    ensures
        final(s)@ == old(s)@.push(c),
{
    s.push(c);
}

/// Escapes the characters of `s` that are markup in XML text and attributes.
pub fn escape_xml(s: &str) -> (r: String)
    ensures
        r@ == escaped(s@),
{
    let mut r = String::new();
    let ghost text = s@;
    for c in it: s.chars()
        invariant
            it.seq() == text,
            r@ == escaped(text.take(it.index() as int)),
    {
        let ghost idx = it.index();
        assert(c == text[idx]);
        if c == '&' {
            proof { reveal_strlit("&amp;"); }
            r.append("&amp;");
        } else if c == '<' {
            proof { reveal_strlit("&lt;"); }
            r.append("&lt;");
        } else if c == '>' {
            proof { reveal_strlit("&gt;"); }
            r.append("&gt;");
        } else if c == '"' {
            proof { reveal_strlit("&quot;"); }
            r.append("&quot;");
        } else if c == '\'' {
            proof { reveal_strlit("&apos;"); }
            r.append("&apos;");
        } else {
            push_char(&mut r, c);
        }
        proof {
            assert(text.take(idx + 1).drop_last() =~= text.take(idx));
            assert(text.take(idx + 1).last() == c);
            assert(r@ =~= escaped(text.take(idx + 1)));
        }
    }
    assert(text.take(text.len() as int) =~= text);
    r
}

} // verus!

//! Character-level text transformations used when emitting XML and when
//! normalizing editor text: XML escaping, vertical layout of a volume title,
//! and newline normalization.

use vstd::prelude::*;
use vstd::string::*;

verus! {

/// The replacement text for one character under XML escaping.
pub open spec fn xml_escape_char(c: char) -> Seq<char> {
    if c == '&' {
        seq!['&', 'a', 'm', 'p', ';']
    } else if c == '<' {
        seq!['&', 'l', 't', ';']
    } else if c == '>' {
        seq!['&', 'g', 't', ';']
    } else if c == '"' {
        seq!['&', 'q', 'u', 'o', 't', ';']
    } else if c == '\'' {
        seq!['&', 'a', 'p', 'o', 's', ';']
    } else {
        seq![c]
    }
}

/// XML escaping of a whole text: each character replaced independently.
pub open spec fn xml_escaped(s: Seq<char>) -> Seq<char>
    decreases s.len(),
{
    if s.len() == 0 {
        Seq::empty()
    } else {
        xml_escape_char(s[0]) + xml_escaped(s.drop_first())
    }
}

/// Escapes the five XML special characters, leaving all others unchanged.
pub fn escape_xml(input: &str) -> (r: String)
    ensures
        r@ == xml_escaped(input@),
{
    let n = input.unicode_len();
    let mut out = String::new();
    let mut i: usize = 0;
    proof {
        assert(input@.skip(0) =~= input@);
        assert(out@ + xml_escaped(input@) =~= xml_escaped(input@));
    }
    while i < n
        invariant
            n == input@.len(),
            i <= n,
            xml_escaped(input@) == out@ + xml_escaped(input@.skip(i as int)),
        decreases n - i,
    {
        let c = input.get_char(i);
        proof {
            let rest = input@.skip(i as int);
            assert(rest[0] == c);
            assert(rest.drop_first() =~= input@.skip(i as int + 1));
        }
        if c == '&' {
            out.append("&amp;");
            proof {
                reveal_strlit("&amp;");
                assert("&amp;"@ =~= xml_escape_char(c));
            }
        } else if c == '<' {
            out.append("&lt;");
            proof {
                reveal_strlit("&lt;");
                assert("&lt;"@ =~= xml_escape_char(c));
            }
        } else if c == '>' {
            out.append("&gt;");
            proof {
                reveal_strlit("&gt;");
                assert("&gt;"@ =~= xml_escape_char(c));
            }
        } else if c == '"' {
            out.append("&quot;");
            proof {
                reveal_strlit("&quot;");
                assert("&quot;"@ =~= xml_escape_char(c));
            }
        } else if c == '\'' {
            out.append("&apos;");
            proof {
                reveal_strlit("&apos;");
                assert("&apos;"@ =~= xml_escape_char(c));
            }
        } else {
            let piece = input.substring_char(i, i + 1);
            out.append(piece);
            proof {
                assert(piece@ =~= xml_escape_char(c));
            }
        }
        i = i + 1;
    }
    proof {
        assert(input@.skip(n as int) =~= Seq::<char>::empty());
    }
    out
}

/// The separator placed between characters of a vertically laid out title.
pub open spec fn vertical_sep() -> Seq<char> {
    seq!['<', 'b', 'r', ' ', '/', '>', '\n', ' ', ' ']
}

/// The characters of a text joined by the vertical separator.
pub open spec fn vertical_joined(s: Seq<char>) -> Seq<char>
    decreases s.len(),
{
    if s.len() == 0 {
        Seq::empty()
    } else if s.len() == 1 {
        seq![s[0]]
    } else {
        seq![s[0]] + vertical_sep() + vertical_joined(s.drop_first())
    }
}

/// Lays a volume title out vertically: one character per line, separated by
/// an XHTML line break.
pub fn format_vertical_volume(text: &str) -> (r: String)
    ensures
        r@ == vertical_joined(text@),
{
    let n = text.unicode_len();
    let mut out = String::new();
    let mut i: usize = 0;
    proof {
        assert(text@.skip(0) =~= text@);
        assert(out@ + vertical_joined(text@) =~= vertical_joined(text@));
    }
    while i < n
        invariant
            n == text@.len(),
            i <= n,
            vertical_joined(text@) == out@ + vertical_joined(text@.skip(i as int)),
        decreases n - i,
    {
        let c = text.get_char(i);
        proof {
            let rest = text@.skip(i as int);
            assert(rest[0] == c);
            assert(rest.drop_first() =~= text@.skip(i as int + 1));
        }
        let piece = text.substring_char(i, i + 1);
        out.append(piece);
        proof {
            assert(piece@ =~= seq![c]);
        }
        if i + 1 < n {
            out.append("<br />\n  ");
            proof {
                reveal_strlit("<br />\n  ");
                assert("<br />\n  "@ =~= vertical_sep());
            }
        }
        i = i + 1;
    }
    proof {
        assert(text@.skip(n as int) =~= Seq::<char>::empty());
    }
    out
}

/// A text with every carriage return collapsed into a bare line feed: each
/// "\r\n" pair becomes one '\n' and each lone '\r' becomes '\n'.
pub open spec fn newlines_normalized(s: Seq<char>) -> Seq<char>
    decreases s.len(),
{
    if s.len() == 0 {
        Seq::empty()
    } else if s[0] == '\r' {
        if s.len() >= 2 && s[1] == '\n' {
            seq!['\n'] + newlines_normalized(s.skip(2))
        } else {
            seq!['\n'] + newlines_normalized(s.skip(1))
        }
    } else {
        seq![s[0]] + newlines_normalized(s.skip(1))
    }
}

/// Unifies line endings to '\n', so that line numbers computed here agree
/// with the editor's.
pub fn normalize_line_endings(s: String) -> (r: String)
    ensures
        r@ == newlines_normalized(s@),
{
    let text = s.as_str();
    let n = text.unicode_len();
    let mut out = String::new();
    let mut i: usize = 0;
    proof {
        assert(text@.skip(0) =~= text@);
        assert(out@ + newlines_normalized(text@) =~= newlines_normalized(text@));
    }
    while i < n
        invariant
            n == text@.len(),
            i <= n,
            newlines_normalized(text@) == out@ + newlines_normalized(text@.skip(i as int)),
        decreases n - i,
    {
        let c = text.get_char(i);
        proof {
            let rest = text@.skip(i as int);
            assert(rest[0] == c);
        }
        if c == '\r' {
            out.append("\n");
            proof {
                reveal_strlit("\n");
            }
            if i + 1 < n && text.get_char(i + 1) == '\n' {
                proof {
                    let rest = text@.skip(i as int);
                    assert(rest[1] == text@[i as int + 1]);
                    assert(rest.skip(2) =~= text@.skip(i as int + 2));
                }
                i = i + 2;
            } else {
                proof {
                    let rest = text@.skip(i as int);
                    assert(rest.len() >= 2 ==> rest[1] == text@[i as int + 1]);
                    assert(rest.skip(1) =~= text@.skip(i as int + 1));
                }
                i = i + 1;
            }
        } else {
            let piece = text.substring_char(i, i + 1);
            out.append(piece);
            proof {
                assert(piece@ =~= seq![c]);
                let rest = text@.skip(i as int);
                assert(rest.skip(1) =~= text@.skip(i as int + 1));
            }
            i = i + 1;
        }
    }
    proof {
        assert(text@.skip(n as int) =~= Seq::<char>::empty());
    }
    out
}

} // verus!

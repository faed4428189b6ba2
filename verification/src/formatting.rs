//! The lines in which matched paths are written out.
use vstd::prelude::*;

verus! {

/// How the paths of one group are written.
#[derive(Debug, Clone, Copy, PartialEq, Eq, Structural)]
pub enum Fmt {
    /// The paths, with a space between each two.
    Regular,
    /// As `Regular`, each path in double quotes, with a backslash before
    /// each double quote in it.
    Quote,
    /// Each path followed by a NUL character, and one more NUL at the end.
    Null,
}

/// The parts with `separator` between each two of them.
pub open spec fn joined(parts: Seq<Seq<char>>, separator: Seq<char>) -> Seq<char>
    decreases parts.len(),
{
    if parts.len() == 0 {
        Seq::empty()
    } else if parts.len() == 1 {
        parts[0]
    } else {
        joined(parts.drop_last(), separator) + separator + parts.last()
    }
}

/// The parts one after the other, each followed by `terminator`.
pub open spec fn terminated(parts: Seq<Seq<char>>, terminator: Seq<char>) -> Seq<char>
    decreases parts.len(),
{
    if parts.len() == 0 {
        Seq::empty()
    } else {
        terminated(parts.drop_last(), terminator) + parts.last() + terminator
    }
}

/// `text` with a backslash before each double quote.
pub open spec fn escaped(text: Seq<char>) -> Seq<char>
    decreases text.len(),
{
    if text.len() == 0 {
        Seq::empty()
    } else if text.last() == '"' {
        escaped(text.drop_last()).push('\\').push('"')
    } else {
        escaped(text.drop_last()).push(text.last())
    }
}

/// `text` in double quotes, with a backslash before each double quote in it.
pub open spec fn quoted(text: Seq<char>) -> Seq<char> {
    seq!['"'] + escaped(text) + seq!['"']
}

/// The names as sequences of characters.
pub open spec fn name_views(names: Seq<String>) -> Seq<Seq<char>> {
    names.map_values(|name: String| name@)
}

/// What is written for a group of paths in the format `fmt`.
pub open spec fn formatted(names: Seq<Seq<char>>, fmt: Fmt) -> Seq<char> {
    match fmt {
        Fmt::Regular => joined(names, seq![' ']),
        Fmt::Quote => joined(names.map_values(|name: Seq<char>| quoted(name)), seq![' ']),
        Fmt::Null => terminated(names, seq!['\0']) + seq!['\0'],
    }
}

/// The names on one line, with a space between each two.
pub fn join_names(names: &Vec<String>) -> (line: String)
    ensures
        line@ == joined(name_views(names@), seq![' ']),
{
    let mut line = String::new();
    let mut i: usize = 0;
    proof {
        reveal_strlit(" ");
        assert(" "@ =~= seq![' ']);
        assert(name_views(names@).take(0) =~= Seq::<Seq<char>>::empty());
    }
    while i < names.len()
        invariant
            0 <= i <= names@.len(),
            " "@ == seq![' '],
            line@ == joined(name_views(names@).take(i as int), seq![' ']),
        decreases names@.len() - i,
    {
        proof {
            let views = name_views(names@);
            assert(views.take(i + 1).drop_last() =~= views.take(i as int));
            assert(views.take(i + 1).last() == names@[i as int]@);
            if i == 0 {
                assert(views.take(1)[0] == names@[0]@);
                assert(Seq::<char>::empty() + names@[0]@ =~= names@[0]@);
            }
        }
        if i > 0 {
            line.append(" ");
        }
        line.append(names[i].as_str());
        i += 1;
    }
    assert(name_views(names@).take(names@.len() as int) =~= name_views(names@));
    line
}

/// `text` in double quotes, with a backslash before each double quote in it.
pub fn quote(text: &str) -> (result: String)
    ensures
        result@ == quoted(text@),
{
    let mut result = String::new();
    proof {
        reveal_strlit("\"");
        reveal_strlit("\\\"");
        assert("\""@ =~= seq!['"']);
        assert("\\\""@ =~= seq!['\\', '"']);
        assert(text@.take(0) =~= Seq::<char>::empty());
    }
    result.append("\"");
    let length = text.unicode_len();
    let mut i: usize = 0;
    while i < length
        invariant
            0 <= i <= length,
            length == text@.len(),
            "\""@ == seq!['"'],
            "\\\""@ == seq!['\\', '"'],
            result@ == seq!['"'] + escaped(text@.take(i as int)),
        decreases length - i,
    {
        proof {
            assert(text@.take(i + 1).drop_last() =~= text@.take(i as int));
            assert(text@.take(i + 1).last() == text@[i as int]);
        }
        let ghost before = result@;
        if text.get_char(i) == '"' {
            result.append("\\\"");
            assert(result@ =~= seq!['"'] + escaped(text@.take(i as int)).push('\\').push('"'));
        } else {
            let piece = text.substring_char(i, i + 1);
            assert(piece@ =~= seq![text@[i as int]]);
            result.append(piece);
            assert(result@ =~= seq!['"'] + escaped(text@.take(i as int)).push(text@[i as int]));
        }
        i += 1;
    }
    assert(text@.take(length as int) =~= text@);
    result.append("\"");
    result
}

/// What is written for a group of paths in the format `fmt`.
pub fn format_group(group: &Vec<String>, fmt: Fmt) -> (text: String)
    ensures
        text@ == formatted(name_views(group@), fmt),
{
    match fmt {
        Fmt::Regular => join_names(group),
        Fmt::Quote => {
            let mut parts: Vec<String> = Vec::with_capacity(group.len());
            let mut i: usize = 0;
            while i < group.len()
                invariant
                    0 <= i <= group@.len(),
                    parts@.len() == i,
                    forall|j: int| 0 <= j < i ==> (#[trigger] parts@[j])@ == quoted(group@[j]@),
                decreases group@.len() - i,
            {
                parts.push(quote(group[i].as_str()));
                i += 1;
            }
            assert(name_views(parts@) =~= name_views(group@).map_values(|name: Seq<char>| quoted(name)));
            join_names(&parts)
        },
        Fmt::Null => {
            let mut text = String::new();
            let mut i: usize = 0;
            proof {
                reveal_strlit("\0");
                assert("\0"@ =~= seq!['\0']);
                assert(name_views(group@).take(0) =~= Seq::<Seq<char>>::empty());
            }
            while i < group.len()
                invariant
                    0 <= i <= group@.len(),
                    "\0"@ == seq!['\0'],
                    text@ == terminated(name_views(group@).take(i as int), seq!['\0']),
                decreases group@.len() - i,
            {
                proof {
                    let views = name_views(group@);
                    assert(views.take(i + 1).drop_last() =~= views.take(i as int));
                    assert(views.take(i + 1).last() == group@[i as int]@);
                }
                text.append(group[i].as_str());
                text.append("\0");
                i += 1;
            }
            assert(name_views(group@).take(group@.len() as int) =~= name_views(group@));
            text.append("\0");
            text
        },
    }
}

} // verus!

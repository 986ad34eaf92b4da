//! Icon names for rows: the freedesktop generic-icons table first, then the icon naming spec's
//! fallbacks, so that every row gets a real icon name.
use vstd::prelude::*;
use crate::table::Table;
use crate::text::{chars_of, find_char, find_in, line_spans, lines, spans_text, str_eq, string_of};

verus! {

/// What one line of the generic-icons table contributes: a "type:icon" pair with both sides
/// non-empty. A comment, a blank line or a line with no colon contributes nothing.
pub open spec fn icon_entry(line: Seq<char>) -> Option<(Seq<char>, Seq<char>)> {
    if line.len() == 0 || line[0] == '#' {
        None
    } else {
        let i = find_char(line, ':');
        if i >= line.len() {
            None
        } else {
            let mime = line.take(i);
            let icon = line.skip(i + 1);
            if mime.len() > 0 && icon.len() > 0 {
                Some((mime, icon))
            } else {
                None
            }
        }
    }
}

/// The table that a sequence of lines describes, a later line for a type winning.
pub open spec fn icon_table(ls: Seq<Seq<char>>) -> Map<Seq<char>, Seq<char>>
    decreases ls.len(),
{
    if ls.len() == 0 {
        Map::empty()
    } else {
        let m = icon_table(ls.drop_last());
        match icon_entry(ls.last()) {
            Some(e) => m.insert(e.0, e.1),
            None => m,
        }
    }
}

/// Every icon in the table is a non-empty name.
pub open spec fn all_named(m: Map<Seq<char>, Seq<char>>) -> bool {
    forall|k: Seq<char>| m.contains_key(k) ==> (#[trigger] m[k]).len() > 0
}

proof fn lemma_icon_table_named(ls: Seq<Seq<char>>)
    ensures
        all_named(icon_table(ls)),
    decreases ls.len(),
{
    if ls.len() > 0 {
        lemma_icon_table_named(ls.drop_last());
    }
}

/// The icon for a media class ("image" in "image/jpeg"), per the icon naming spec.
pub open spec fn class_icon_name(class: Seq<char>) -> Seq<char> {
    if class == "image"@ {
        "image-x-generic"@
    } else if class == "video"@ {
        "video-x-generic"@
    } else if class == "audio"@ {
        "audio-x-generic"@
    } else if class == "text"@ {
        "text-x-generic"@
    } else if class == "font"@ {
        "font-x-generic"@
    } else {
        "text-x-generic"@
    }
}

/// The icon a row gets: a folder for a directory; the generic file icon for no type; the table's
/// icon where it lists the type; for an unlisted application type the executable icon when any
/// execute bit is set and the generic application icon otherwise; else the icon of its class.
pub open spec fn icon_name(
    table: Map<Seq<char>, Seq<char>>,
    mime: Option<Seq<char>>,
    is_dir: bool,
    mode: u32,
) -> Seq<char> {
    if is_dir {
        "folder"@
    } else {
        match mime {
            None => "text-x-generic"@,
            Some(m) => if m.len() == 0 {
                "text-x-generic"@
            } else if table.contains_key(m) {
                table[m]
            } else {
                let i = find_char(m, '/');
                if i >= m.len() || i == 0 {
                    "text-x-generic"@
                } else if m.take(i) == "application"@ {
                    if mode & 0o111u32 != 0 {
                        "application-x-executable"@
                    } else {
                        "application-x-generic"@
                    }
                } else {
                    class_icon_name(m.take(i))
                }
            },
        }
    }
}

/// The characters of an optional string.
pub open spec fn opt_chars(s: Option<&str>) -> Option<Seq<char>> {
    match s {
        Some(m) => Some(m@),
        None => None,
    }
}

/// A listed type wins: for a row that is no directory, a type the table lists gets the table's
/// icon whatever the mode bits say; and every type the table is read with is non-empty, so
/// this holds of every listed type.
pub proof fn law_a_listed_type_wins_over_the_mode(
    table: Map<Seq<char>, Seq<char>>,
    m: Seq<char>,
    mode: u32,
    other_mode: u32,
)
    requires
        table.contains_key(m),
        m.len() > 0,
    ensures
        icon_name(table, Some(m), false, mode) == table[m],
        icon_name(table, Some(m), false, mode) == icon_name(table, Some(m), false, other_mode),
{
}

/// The table read from any text lists no empty type.
pub proof fn law_the_table_lists_no_empty_type(ls: Seq<Seq<char>>, m: Seq<char>)
    requires
        icon_table(ls).contains_key(m),
    ensures
        m.len() > 0,
    decreases ls.len(),
{
    if ls.len() > 0 {
        match icon_entry(ls.last()) {
            Some(e) => {
                if e.0 != m {
                    law_the_table_lists_no_empty_type(ls.drop_last(), m);
                }
            },
            None => {
                law_the_table_lists_no_empty_type(ls.drop_last(), m);
            },
        }
    }
}

/// The generic-icons table: MIME type to icon name.
pub struct Names {
    generic: Table,
}

impl View for Names {
    type V = Map<Seq<char>, Seq<char>>;

    closed spec fn view(&self) -> Map<Seq<char>, Seq<char>> {
        self.generic@
    }
}

impl Names {
    #[verifier::type_invariant]
    closed spec fn names_are_real(self) -> bool {
        &&& all_named(self.generic@)
        &&& forall|k: Seq<char>| #[trigger] self.generic@.contains_key(k) ==> k.len() > 0
    }

    /// Reads a table in the format of /usr/share/mime/generic-icons.
    pub fn from_str(text: &str) -> (r: Names)
        ensures
            r@ == icon_table(lines(text@)),
    {
        let v = chars_of(text);
        let spans = line_spans(&v);
        let mut generic = Table::new();
        let mut k: usize = 0;
        while k < spans.len()
            invariant
                v@ == text@,
                spans_text(v@, spans@) == lines(v@),
                forall|i: int| 0 <= i < spans.len() ==> (#[trigger] spans@[i]).0 <= spans@[i].1
                    <= v.len(),
                k <= spans.len(),
                generic@ == icon_table(spans_text(v@, spans@).take(k as int)),
            decreases spans.len() - k,
        {
            let (lo, hi) = spans[k];
            let ghost line = v@.subrange(lo as int, hi as int);
            let ghost ls = spans_text(v@, spans@).take(k + 1);
            assert(ls.drop_last() =~= spans_text(v@, spans@).take(k as int));
            assert(ls.last() == line);
            if lo < hi && v[lo] != '#' {
                let j = find_in(&v, lo, hi, ':');
                if j < hi {
                    assert(v@.subrange(lo as int, j as int) =~= line.take(j - lo));
                    assert(v@.subrange(j + 1, hi as int) =~= line.skip(j - lo + 1));
                    if lo < j && j + 1 < hi {
                        let mime = string_of(&v, lo, j);
                        let icon = string_of(&v, j + 1, hi);
                        generic.insert(mime, icon);
                    }
                }
            }
            k = k + 1;
        }
        assert(spans_text(v@, spans@).take(k as int) =~= spans_text(v@, spans@));
        proof {
            lemma_icon_table_named(lines(text@));
            assert forall|k: Seq<char>| #[trigger] generic@.contains_key(k) implies k.len() > 0 by {
                law_the_table_lists_no_empty_type(lines(text@), k);
            }
        }
        Names { generic }
    }

    /// Always a real, non-empty icon name: a row with no icon is a worse bug than a wrong icon.
    pub fn icon_for(&self, mime: Option<&str>, is_dir: bool, mode: u32) -> (r: &str)
        ensures
            r@ == icon_name(self@, opt_chars(mime), is_dir, mode),
            r@.len() > 0,
            !is_dir && mime is Some && self@.contains_key(mime->0@) ==> r@ == self@[mime->0@],
    {
        proof {
            use_type_invariant(self);
            if !is_dir && mime is Some && self@.contains_key(mime->0@) {
                law_a_listed_type_wins_over_the_mode(self@, mime->0@, mode, mode);
            }
            reveal_strlit("folder");
            reveal_strlit("text-x-generic");
            reveal_strlit("application-x-executable");
            reveal_strlit("application-x-generic");
            reveal_strlit("image-x-generic");
            reveal_strlit("video-x-generic");
            reveal_strlit("audio-x-generic");
            reveal_strlit("font-x-generic");
        }
        if is_dir {
            return "folder";
        }
        let m = match mime {
            Some(m) => m,
            None => return "text-x-generic",
        };
        if m.is_empty() {
            return "text-x-generic";
        }
        if let Some(icon) = self.generic.get(m) {
            return icon;
        }
        let v = chars_of(m);
        let i = find_in(&v, 0, v.len(), '/');
        assert(v@.subrange(0, v.len() as int) =~= v@);
        if i >= v.len() || i == 0 {
            return "text-x-generic";
        }
        let class = string_of(&v, 0, i);
        assert(v@.subrange(0, i as int) =~= m@.take(i as int));
        if str_eq(class.as_str(), "application") {
            if mode & 0o111 != 0 {
                "application-x-executable"
            } else {
                "application-x-generic"
            }
        } else {
            class_icon(class.as_str())
        }
    }
}

/// The generic icon of a media class; the icon naming spec ships these class names.
fn class_icon(class: &str) -> (r: &'static str)
    ensures
        r@ == class_icon_name(class@),
{
    if str_eq(class, "image") {
        "image-x-generic"
    } else if str_eq(class, "video") {
        "video-x-generic"
    } else if str_eq(class, "audio") {
        "audio-x-generic"
    } else if str_eq(class, "text") {
        "text-x-generic"
    } else if str_eq(class, "font") {
        "font-x-generic"
    } else {
        "text-x-generic"
    }
}

} // verus!

use vstd::prelude::*;
use vstd::string::StrSliceExecFns;

verus! {

/// Whether a character has the Unicode White_Space property, which `str::trim`
/// strips.
pub uninterp spec fn white_space(c: char) -> bool;

/// `s` without its leading White_Space characters.
pub open spec fn trim_start(s: Seq<char>) -> Seq<char>
    decreases s.len(),
{
    if s.len() > 0 && white_space(s[0]) {
        trim_start(s.drop_first())
    } else {
        s
    }
}

/// `s` without its trailing White_Space characters.
pub open spec fn trim_end(s: Seq<char>) -> Seq<char>
    decreases s.len(),
{
    if s.len() > 0 && white_space(s.last()) {
        trim_end(s.drop_last())
    } else {
        s
    }
}

/// `s` without leading and trailing White_Space characters.
pub open spec fn trimmed(s: Seq<char>) -> Seq<char> {
    trim_end(trim_start(s))
}

/// Relies on `str::trim`: the slice with leading and trailing whitespace
/// (Unicode White_Space) removed.
#[verifier::external_body]
fn trim<'a>(s: &'a str) -> (r: &'a str)
    ensures
        r@ == trimmed(s@),
        r@.len() > 0 ==> !white_space(r@[0]) && !white_space(r@.last()),
{
    s.trim()
}

/// Relies on `format!`: the message for an input longer than allowed.
#[verifier::external_body]
fn too_long_message(field_name: &str, max_len: usize) -> String {
    format!("{field_name} too long (max {max_len} characters)")
}

/// An ASCII hexadecimal digit.
pub open spec fn is_hex_digit(c: char) -> bool {
    ('0' <= c && c <= '9') || ('a' <= c && c <= 'f') || ('A' <= c && c <= 'F')
}

/// A color written `#RRGGBB` in hexadecimal.
pub open spec fn is_hex_color(t: Seq<char>) -> bool {
    &&& t.len() == 7
    &&& t[0] == '#'
    &&& forall|i: int| 1 <= i < 7 ==> is_hex_digit(#[trigger] t[i])
}

fn hex_digit(c: char) -> (r: bool)
    ensures
        r == is_hex_digit(c),
{
    ('0' <= c && c <= '9') || ('a' <= c && c <= 'f') || ('A' <= c && c <= 'F')
}

/// What a trimmed color field stands for: no color when it is empty, the color
/// itself when it reads `#RRGGBB`, an error otherwise.
pub fn parse_color(trimmed: &str) -> (r: Result<Option<String>, ()>)
    ensures
        trimmed@.len() == 0 ==> r == Ok::<Option<String>, ()>(None),
        trimmed@.len() > 0 && is_hex_color(trimmed@) ==> (r matches Ok(Some(c)) && c@ == trimmed@),
        trimmed@.len() > 0 && !is_hex_color(trimmed@) ==> r is Err,
{
    let n = trimmed.unicode_len();
    if n == 0 {
        return Ok(None);
    }
    if n != 7 || trimmed.get_char(0) != '#' {
        return Err(());
    }
    let mut i: usize = 1;
    while i < 7
        invariant
            trimmed@.len() == 7,
            1 <= i <= 7,
            forall|j: int| 1 <= j < i ==> is_hex_digit(#[trigger] trimmed@[j]),
        decreases 7 - i,
    {
        if !hex_digit(trimmed.get_char(i)) {
            return Err(());
        }
        i = i + 1;
    }
    Ok(Some(trimmed.to_owned()))
}

/// `r` is what normalizing the color field `color` gives: no color when the
/// field is absent or blank, the trimmed color when it reads `#RRGGBB`, an
/// error otherwise.
pub open spec fn normalizes_color(color: Option<String>, r: Result<Option<String>, String>) -> bool {
    match color {
        None => r == Ok::<Option<String>, String>(None),
        Some(v) => {
            let t = trimmed(v@);
            &&& t.len() == 0 ==> r == Ok::<Option<String>, String>(None)
            &&& t.len() > 0 && is_hex_color(t) ==> (r matches Ok(Some(c)) && c@ == t)
            &&& t.len() > 0 && !is_hex_color(t) ==> r is Err
        },
    }
}

fn normalize_color(color: Option<String>, message: &str) -> (r: Result<Option<String>, String>)
    ensures
        normalizes_color(color, r),
{
    match color {
        None => Ok(None),
        Some(value) => {
            let t = trim(value.as_str());
            match parse_color(t) {
                Ok(c) => Ok(c),
                Err(()) => Err(message.to_owned()),
            }
        },
    }
}

/// Normalizes a column color: absent or blank means none, else `#RRGGBB`.
pub fn normalize_column_color(color: Option<String>) -> (r: Result<Option<String>, String>)
    ensures
        normalizes_color(color, r),
{
    normalize_color(
        color,
        "Cor da coluna inválida. Utilize o formato hexadecimal, por exemplo #6366F1.",
    )
}

/// Normalizes a workspace color: absent or blank means none, else `#RRGGBB`.
pub fn normalize_workspace_color(color: Option<String>) -> (r: Result<Option<String>, String>)
    ensures
        normalizes_color(color, r),
{
    normalize_color(
        color,
        "Cor do workspace inválida. Utilize o formato hexadecimal, por exemplo #6366F1.",
    )
}

/// Normalizes a tag color: absent or blank means none, else `#RRGGBB`.
pub fn normalize_tag_color(color: Option<String>) -> (r: Result<Option<String>, String>)
    ensures
        normalizes_color(color, r),
{
    normalize_color(
        color,
        "Cor da tag inválida. Utilize o formato hexadecimal, por exemplo #FF5733.",
    )
}

/// Trims optional text; text that is blank once trimmed counts as absent.
pub fn normalize_optional_text(value: Option<String>) -> (r: Option<String>)
    ensures
        match value {
            None => r is None,
            Some(v) => if trimmed(v@).len() == 0 {
                r is None
            } else {
                r matches Some(t) && t@ == trimmed(v@)
            },
        },
{
    match value {
        None => None,
        Some(v) => {
            let t = trim(v.as_str());
            if t.is_empty() {
                None
            } else {
                Some(t.to_owned())
            }
        },
    }
}

/// Refuses input longer than `max_len` bytes.
pub fn validate_string_input(input: &str, max_len: usize, field_name: &str) -> (r: Result<
    (),
    String,
>)
    ensures
        r is Ok <==> input.len() <= max_len,
{
    if input.len() > max_len {
        return Err(too_long_message(field_name, max_len));
    }
    Ok(())
}

fn same(a: &str, b: &str) -> (r: bool)
    ensures
        r == (a@ == b@),
{
    a.to_owned() == b.to_owned()
}

/// The icon names a column may carry.
pub open spec fn column_icon(t: Seq<char>) -> bool {
    t == "Circle"@
        || t == "Play"@
        || t == "CheckCircle"@
        || t == "Loader"@
        || t == "AlarmClock"@
        || t == "Bolt"@
        || t == "Sparkles"@
        || t == "Target"@
        || t == "CalendarCheck"@
        || t == "ClipboardList"@
        || t == "Lightbulb"@
        || t == "Flag"@
        || t == "Timer"@
        || t == "Ship"@
        || t == "Kanban"@
        || t == "TrendingUp"@
        || t == "Zap"@
        || t == "Rocket"@
        || t == "BadgeCheck"@
}

/// The icon names a board may carry.
pub open spec fn board_icon(t: Seq<char>) -> bool {
    t == "Folder"@
        || t == "LayoutDashboard"@
        || t == "Layers"@
        || t == "Briefcase"@
        || t == "ClipboardList"@
        || t == "CalendarDays"@
        || t == "BarChart3"@
        || t == "Target"@
        || t == "Users"@
        || t == "MessagesSquare"@
        || t == "LifeBuoy"@
        || t == "Lightbulb"@
        || t == "Rocket"@
        || t == "Package"@
        || t == "Palette"@
        || t == "PenTool"@
}

/// Whether a trimmed icon name is one a column may carry.
pub fn is_column_icon(t: &str) -> (r: bool)
    ensures
        r == column_icon(t@),
{
    same(t, "Circle")
        || same(t, "Play")
        || same(t, "CheckCircle")
        || same(t, "Loader")
        || same(t, "AlarmClock")
        || same(t, "Bolt")
        || same(t, "Sparkles")
        || same(t, "Target")
        || same(t, "CalendarCheck")
        || same(t, "ClipboardList")
        || same(t, "Lightbulb")
        || same(t, "Flag")
        || same(t, "Timer")
        || same(t, "Ship")
        || same(t, "Kanban")
        || same(t, "TrendingUp")
        || same(t, "Zap")
        || same(t, "Rocket")
        || same(t, "BadgeCheck")
}

/// Whether a trimmed icon name is one a board may carry.
pub fn is_board_icon(t: &str) -> (r: bool)
    ensures
        r == board_icon(t@),
{
    same(t, "Folder")
        || same(t, "LayoutDashboard")
        || same(t, "Layers")
        || same(t, "Briefcase")
        || same(t, "ClipboardList")
        || same(t, "CalendarDays")
        || same(t, "BarChart3")
        || same(t, "Target")
        || same(t, "Users")
        || same(t, "MessagesSquare")
        || same(t, "LifeBuoy")
        || same(t, "Lightbulb")
        || same(t, "Rocket")
        || same(t, "Package")
        || same(t, "Palette")
        || same(t, "PenTool")
}

/// Normalizes a column icon: absent or blank means none; otherwise the trimmed
/// name, which must be a column icon.
pub fn normalize_column_icon(icon: Option<String>) -> (r: Result<Option<String>, String>)
    ensures
        match icon {
            None => r == Ok::<Option<String>, String>(None),
            Some(v) => {
                let t = trimmed(v@);
                &&& t.len() == 0 ==> r == Ok::<Option<String>, String>(None)
                &&& t.len() > 0 && column_icon(t) ==> (r matches Ok(Some(c)) && c@ == t)
                &&& t.len() > 0 && !column_icon(t) ==> r is Err
            },
        },
{
    match icon {
        None => Ok(None),
        Some(v) => {
            let t = trim(v.as_str());
            if t.is_empty() {
                Ok(None)
            } else if is_column_icon(t) {
                Ok(Some(t.to_owned()))
            } else {
                Err("Ícone inválido para a coluna.".to_owned())
            }
        },
    }
}

/// Normalizes a board icon: absent or blank means the default `Folder`;
/// otherwise the trimmed name, which must be a board icon.
pub fn normalize_board_icon(icon: Option<String>) -> (r: Result<String, String>)
    ensures
        match icon {
            None => (r matches Ok(c) && c@ == "Folder"@),
            Some(v) => {
                let t = trimmed(v@);
                &&& t.len() == 0 ==> (r matches Ok(c) && c@ == "Folder"@)
                &&& t.len() > 0 && board_icon(t) ==> (r matches Ok(c) && c@ == t)
                &&& t.len() > 0 && !board_icon(t) ==> r is Err
            },
        },
{
    match icon {
        None => Ok("Folder".to_owned()),
        Some(v) => {
            let t = trim(v.as_str());
            if t.is_empty() {
                Ok("Folder".to_owned())
            } else if is_board_icon(t) {
                Ok(t.to_owned())
            } else {
                Err("Ícone inválido para o quadro.".to_owned())
            }
        },
    }
}

/// An ASCII letter or digit.
pub open spec fn is_alnum(c: char) -> bool {
    ('0' <= c && c <= '9') || ('a' <= c && c <= 'z') || ('A' <= c && c <= 'Z')
}

/// A character allowed in the stem of a file name.
pub open spec fn is_stem_char(c: char) -> bool {
    is_alnum(c) || c == '_' || c == '-'
}

/// A file name made of a non-empty stem of letters, digits, `_` and `-`,
/// optionally followed by `.` and a non-empty extension of letters and digits.
pub open spec fn is_plain_file_name(s: Seq<char>) -> bool {
    ||| s.len() > 0 && forall|i: int| 0 <= i < s.len() ==> is_stem_char(#[trigger] s[i])
    ||| exists|d: int|
        0 < d < s.len() - 1 && #[trigger] s[d] == '.' && (forall|i: int|
            0 <= i < d ==> is_stem_char(#[trigger] s[i])) && (forall|i: int|
            d < i < s.len() ==> is_alnum(#[trigger] s[i]))
}

fn alnum(c: char) -> (r: bool)
    ensures
        r == is_alnum(c),
{
    ('0' <= c && c <= '9') || ('a' <= c && c <= 'z') || ('A' <= c && c <= 'Z')
}

fn stem_char(c: char) -> (r: bool)
    ensures
        r == is_stem_char(c),
{
    alnum(c) || c == '_' || c == '-'
}

/// Whether `s` is a plain file name.
pub fn plain_file_name(s: &str) -> (r: bool)
    ensures
        r == is_plain_file_name(s@),
{
    let n = s.unicode_len();
    let mut i: usize = 0;
    while i < n && stem_char(s.get_char(i))
        invariant
            n == s@.len(),
            i <= n,
            forall|j: int| 0 <= j < i ==> is_stem_char(#[trigger] s@[j]),
        decreases n - i,
    {
        i = i + 1;
    }
    if i == n {
        proof {
            if !is_plain_file_name(s@) {
                assert(n == 0 || forall|j: int| 0 <= j < s@.len() ==> is_stem_char(#[trigger] s@[j]));
            }
        }
        return n > 0;
    }
    assert(!is_stem_char(s@[i as int]));
    if i == 0 || s.get_char(i) != '.' || i + 1 == n {
        proof {
            if is_plain_file_name(s@) {
                assert(!is_stem_char(s@[i as int]));
                let d = choose|d: int|
                    0 < d < s@.len() - 1 && #[trigger] s@[d] == '.' && (forall|k: int|
                        0 <= k < d ==> is_stem_char(#[trigger] s@[k])) && (forall|k: int|
                        d < k < s@.len() ==> is_alnum(#[trigger] s@[k]));
                if d < i {
                    assert(is_stem_char(s@[d]));
                } else if d > i {
                    assert(is_stem_char(s@[i as int]));
                }
            }
        }
        return false;
    }
    let mut j: usize = i + 1;
    while j < n && alnum(s.get_char(j))
        invariant
            n == s@.len(),
            i < j <= n,
            forall|k: int| i < k < j ==> is_alnum(#[trigger] s@[k]),
        decreases n - j,
    {
        j = j + 1;
    }
    proof {
        if j == n {
            assert(s@[i as int] == '.');
        } else if is_plain_file_name(s@) {
            assert(!is_alnum(s@[j as int]));
            let d = choose|d: int|
                0 < d < s@.len() - 1 && #[trigger] s@[d] == '.' && (forall|k: int|
                    0 <= k < d ==> is_stem_char(#[trigger] s@[k])) && (forall|k: int|
                    d < k < s@.len() ==> is_alnum(#[trigger] s@[k]));
            if d < i {
                assert(is_stem_char(s@[d]));
            } else if d > i {
                assert(is_stem_char(s@[i as int]));
            } else {
                assert(is_alnum(s@[j as int]));
            }
        }
    }
    j == n
}

/// Accepts a non-empty plain file name of at most 100 bytes.
pub fn validate_filename(filename: &str) -> (r: Result<(), String>)
    ensures
        r is Ok <==> filename@.len() > 0 && filename.len() <= 100 && is_plain_file_name(filename@),
{
    if filename.is_empty() {
        return Err("Filename cannot be empty".to_owned());
    }
    if filename.len() > 100 {
        return Err("Filename too long (max 100 characters)".to_owned());
    }
    if !plain_file_name(filename) {
        return Err(
            "Invalid filename: only alphanumeric characters, dashes, underscores, and dots allowed".to_owned(),
        );
    }
    Ok(())
}

} // verus!

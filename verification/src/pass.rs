//! Entries of the password store: their names in the store's directory, the
//! fields that `pass show` prints for them, and the sequence that types them.
use vstd::prelude::*;
use vstd::string::*;
use crate::fields::FieldMap;
use crate::text::{
    chars_of, has_prefix, lines_of, matches_at, occurs_at, split_lines, split_whitespace,
    starts_with, str_eq, strip_suffix, has_suffix, substring, trim_end, trim_end_of, views,
    words_of,
};

verus! {

broadcast use vstd::string::group_string_axioms;

/// The view of an optional string.
pub open spec fn opt_view(o: Option<String>) -> Option<Seq<char>> {
    match o {
        Some(s) => Some(s@),
        None => None,
    }
}

/// The name under which `Path::strip_prefix` puts `path` relative to
/// `prefix`, where `prefix` is a leading run of its components (paths as the
/// Unix systems that this program runs on read them, `/` separating the
/// components).
pub uninterp spec fn path_relative(path: Seq<char>, prefix: Seq<char>) -> Option<Seq<char>>;

/// Calls `std::path::Path::strip_prefix` and renders the remainder as a string.
/// Claimed: the result is `path_relative` of the two arguments, a function of
/// them alone. What that function is on given values is not stated.
#[verifier::external_body]
fn relative_path(path: &str, prefix: &str) -> (r: Option<String>)
    ensures
        opt_view(r) == path_relative(path@, prefix@),
{
    match std::path::Path::new(path).strip_prefix(prefix) {
        Ok(rest) => Some(rest.to_string_lossy().into_owned()),
        Err(_) => None,
    }
}

/// The name of a store entry whose file lies at `relative` in the store: the
/// path without its `.gpg` extension; none for other files.
pub open spec fn entry_name_of(relative: Option<Seq<char>>) -> Option<Seq<char>> {
    match relative {
        Some(r) => if has_suffix(r, ".gpg"@) {
            Some(r.take(r.len() - ".gpg"@.len()))
        } else {
            None
        },
        None => None,
    }
}

/// An entry's name is the path of its file with only the `.gpg` extension
/// taken off: adding `.gpg` back gives the path, every path that ends in
/// `.gpg` names an entry, and the file of any name `n` is `n.gpg`.
pub proof fn lemma_entry_name_is_path_without_extension(r: Seq<char>, n: Seq<char>)
    ensures
        entry_name_of(Some(r)) matches Some(m) ==> m + ".gpg"@ == r,
        entry_name_of(Some(r)) is Some <==> (r.len() >= 4 && r.skip(r.len() - 4) == ".gpg"@),
        entry_name_of(Some(n + ".gpg"@)) == Some(n),
        entry_name_of(None) is None,
{
    reveal_strlit(".gpg");
    assert(".gpg"@.len() == 4);
    if r.len() >= 4 {
        assert(r.subrange(r.len() - 4, r.len() as int) =~= r.skip(r.len() - 4));
        assert(r.take(r.len() - 4) + r.skip(r.len() - 4) =~= r);
    }
    let t = n + ".gpg"@;
    assert(t.subrange(t.len() - 4, t.len() as int) =~= ".gpg"@);
    assert(t.take(t.len() - 4) =~= n);
}

/// The entry name of the file at `relative` in the store, if it is a `.gpg`
/// file.
pub fn entry_name(relative: Option<&str>) -> (r: Option<String>)
    ensures
        opt_view(r) == entry_name_of(
            match relative {
                Some(s) => Some(s@),
                None => None,
            },
        ),
{
    match relative {
        Some(rel) => strip_suffix(rel, ".gpg"),
        None => None,
    }
}

/// The entry name for a file found at `entry` while walking the store rooted
/// at `prefix`; none where there is no file or it is not a `.gpg` file.
pub fn clean_name(entry: Option<&str>, prefix: &str) -> (r: Option<String>)
    ensures
        opt_view(r) == match entry {
            Some(p) => entry_name_of(path_relative(p@, prefix@)),
            None => None,
        },
{
    match entry {
        Some(p) => {
            let rel = relative_path(p, prefix);
            match rel {
                Some(rel) => entry_name(Some(rel.as_str())),
                None => entry_name(None),
            }
        },
        None => None,
    }
}

/// Whether a file name is that of a hidden file, which the walk of the
/// store skips (and does not descend into): a name that starts with a dot.
/// A name that is not valid Unicode is none and is not hidden.
pub fn is_hidden(file_name: Option<&str>) -> (r: bool)
    ensures
        r == (file_name matches Some(n) && n@.len() > 0 && n@[0] == '.'),
{
    match file_name {
        Some(n) => {
            let cs = chars_of(n);
            cs.len() > 0 && cs[0] == '.'
        },
        None => false,
    }
}

/// The directory of a password store.
pub struct PassDir {
    pub root: String,
}

impl PassDir {
    /// The store rooted at `root`.
    pub fn new(root: String) -> (d: PassDir)
        ensures
            d.root == root,
    {
        PassDir { root }
    }

    /// The entry that `pass show entry` describes: `output` is what the
    /// command printed, none where it failed.
    pub fn show(self, entry: &str, user: &str, output: Option<&str>) -> (r: Option<PassEntry>)
        ensures
            r is Some <==> output is Some,
            r matches Some(e) ==> e.wf(),
            r matches Some(e) ==> e@ == (entry@, parsed_fields(
                default_fields(user@),
                entry@,
                output.unwrap()@,
            )),
    {
        PassEntry::from_pass(entry, user, output)
    }
}

/// The name under which a label of the entry text is stored: `autotype`
/// sets the typing sequence, `otp_method` the one-time-password command.
pub open spec fn field_key(label: Seq<char>) -> Seq<char> {
    if label == "autotype"@ {
        ":autotype"@
    } else if label == "otp_method"@ {
        ":otp"@
    } else {
        label
    }
}

/// `i` is the first position of `: ` in `s`.
pub open spec fn is_first_sep(s: Seq<char>, i: int) -> bool {
    &&& occurs_at(s, ": "@, i)
    &&& forall|j: int| 0 <= j < i ==> !occurs_at(s, ": "@, j)
}

/// `s` cut at its first `: `, as `str::split_once(": ")` cuts it.
pub open spec fn split_field(s: Seq<char>) -> Option<(Seq<char>, Seq<char>)> {
    if exists|i: int| is_first_sep(s, i) {
        let i = choose|i: int| is_first_sep(s, i);
        Some((s.take(i), s.skip(i + ": "@.len())))
    } else {
        None
    }
}

/// The line is `otp_method: <command>`.
pub open spec fn is_otp_method_line(line: Seq<char>) -> bool {
    split_field(line) matches Some((label, value)) && label == "otp_method"@
}

/// Some of the lines is an `otp_method` line.
pub open spec fn has_otp_method(lines: Seq<Seq<char>>) -> bool {
    exists|i: int| 0 <= i < lines.len() && is_otp_method_line(#[trigger] lines[i])
}

/// `s` starts with `otpauth://`, the form of a one-time-password key.
pub open spec fn is_otpauth(s: Seq<char>) -> bool {
    has_prefix(s, "otpauth://"@)
}

/// The one-time-password command of the entry `name` where the entry names
/// none: `pass otp <name>`.
pub open spec fn otp_fallback(name: Seq<char>) -> Seq<char> {
    "pass otp "@ + name
}

/// The field that a field line of the text of entry `name` sets, and its
/// value: `label: value` sets the field that `label` names; where `fallback`
/// holds (the text has no `otp_method` line), a line that starts with
/// `otpauth://` makes the one-time-password command `pass otp <name>`; any
/// other line sets nothing.
pub open spec fn line_assignment(name: Seq<char>, line: Seq<char>, fallback: bool) -> Option<
    (Seq<char>, Seq<char>),
> {
    match split_field(line) {
        Some((label, value)) => Some((field_key(label), value)),
        None => if fallback && is_otpauth(line) {
            Some((":otp"@, otp_fallback(name)))
        } else {
            None
        },
    }
}

/// The line sets the field `k`.
pub open spec fn assigns(name: Seq<char>, line: Seq<char>, fallback: bool, k: Seq<char>) -> bool {
    line_assignment(name, line, fallback) matches Some((key, value)) && key == k
}

/// The fields after one more field line of the text of entry `name`.
pub open spec fn apply_line(
    fields: Map<Seq<char>, Seq<char>>,
    name: Seq<char>,
    line: Seq<char>,
    fallback: bool,
) -> Map<Seq<char>, Seq<char>> {
    match line_assignment(name, line, fallback) {
        Some((k, v)) => fields.insert(k, v),
        None => fields,
    }
}

/// The fields after the given field lines, in order.
pub open spec fn apply_lines(
    fields: Map<Seq<char>, Seq<char>>,
    name: Seq<char>,
    lines: Seq<Seq<char>>,
    fallback: bool,
) -> Map<Seq<char>, Seq<char>>
    decreases lines.len(),
{
    if lines.len() == 0 {
        fields
    } else {
        apply_line(apply_lines(fields, name, lines.drop_last(), fallback), name, lines.last(), fallback)
    }
}

/// `k` is the first line after the first one that is `---`, the line that
/// ends a password of several lines.
pub open spec fn is_first_rule(ls: Seq<Seq<char>>, k: int) -> bool {
    &&& 1 <= k < ls.len()
    &&& ls[k] == "---"@
    &&& forall|j: int| 1 <= j < k ==> ls[j] != "---"@
}

/// The number of lines that make the password: those before the first `---`
/// line, or the first line alone where there is none.
pub open spec fn password_len(ls: Seq<Seq<char>>) -> int {
    if exists|k: int| is_first_rule(ls, k) {
        choose|k: int| is_first_rule(ls, k)
    } else {
        1
    }
}

/// The position of the first field line: after the `---` line, or after the
/// first line where there is none.
pub open spec fn fields_start(ls: Seq<Seq<char>>) -> int {
    if exists|k: int| is_first_rule(ls, k) {
        password_len(ls) + 1
    } else {
        1
    }
}

/// Lines joined with newlines between them.
pub open spec fn join_lines(s: Seq<Seq<char>>) -> Seq<char>
    decreases s.len(),
{
    if s.len() == 0 {
        Seq::<char>::empty()
    } else if s.len() == 1 {
        s[0]
    } else {
        join_lines(s.drop_last()) + "\n"@ + s.last()
    }
}

/// The password that the text `content` holds: its lines before the first
/// `---` line, joined with newlines; the first line where there is no such
/// line.
pub open spec fn password_of(content: Seq<char>) -> Seq<char> {
    join_lines(lines_of(content).take(password_len(lines_of(content))))
}

/// The lines of `content` that are read as fields: those after the password
/// (and after the `---` line that ends it).
pub open spec fn field_lines(content: Seq<char>) -> Seq<Seq<char>> {
    lines_of(content).skip(fields_start(lines_of(content)))
}

/// An `otpauth://` key makes the command `pass otp <name>` only where the
/// text has no `otp_method` line.
pub open spec fn fallback_applies(content: Seq<char>) -> bool {
    !has_otp_method(field_lines(content))
}

/// The fields before the field lines are read: the password as `pass`, and,
/// where the password is an `otpauth://` key and no `otp_method` line
/// follows, the command `pass otp <name>`.
pub open spec fn password_fields(
    fields: Map<Seq<char>, Seq<char>>,
    name: Seq<char>,
    content: Seq<char>,
) -> Map<Seq<char>, Seq<char>> {
    let base = fields.insert("pass"@, password_of(content));
    if fallback_applies(content) && is_otpauth(password_of(content)) {
        base.insert(":otp"@, otp_fallback(name))
    } else {
        base
    }
}

/// The fields of the entry `name` after reading the text `content` that
/// `pass show` printed: the password (`password_fields`), then each field
/// line as `apply_line` says.
pub open spec fn parsed_fields(
    fields: Map<Seq<char>, Seq<char>>,
    name: Seq<char>,
    content: Seq<char>,
) -> Map<Seq<char>, Seq<char>> {
    apply_lines(
        password_fields(fields, name, content),
        name,
        field_lines(content),
        fallback_applies(content),
    )
}

/// The fields of a new entry: the default typing sequence, and the user's
/// name as `user`.
pub open spec fn default_fields(user: Seq<char>) -> Map<Seq<char>, Seq<char>> {
    Map::<Seq<char>, Seq<char>>::empty().insert(":autotype"@, "user :tab pass"@).insert(
        "user"@,
        user,
    )
}

pub proof fn lemma_apply_lines_grows(
    fields: Map<Seq<char>, Seq<char>>,
    name: Seq<char>,
    lines: Seq<Seq<char>>,
    fallback: bool,
    k: Seq<char>,
)
    requires
        fields.dom().contains(k),
    ensures
        apply_lines(fields, name, lines, fallback).dom().contains(k),
    decreases lines.len(),
{
    if lines.len() > 0 {
        lemma_apply_lines_grows(fields, name, lines.drop_last(), fallback, k);
    }
}

/// The fields that parsing an entry's text keeps: every field it had, and
/// the password.
pub proof fn lemma_parsed_fields_grow(
    fields: Map<Seq<char>, Seq<char>>,
    name: Seq<char>,
    content: Seq<char>,
    k: Seq<char>,
)
    requires
        fields.dom().contains(k) || k == "pass"@,
    ensures
        parsed_fields(fields, name, content).dom().contains(k),
{
    lemma_apply_lines_grows(
        password_fields(fields, name, content),
        name,
        field_lines(content),
        fallback_applies(content),
        k,
    );
}

proof fn lemma_apply_lines_last(
    fields: Map<Seq<char>, Seq<char>>,
    name: Seq<char>,
    lines: Seq<Seq<char>>,
    fallback: bool,
    k: Seq<char>,
    i: int,
)
    requires
        0 <= i < lines.len(),
        assigns(name, lines[i], fallback, k),
        forall|j: int| i < j < lines.len() ==> !assigns(name, #[trigger] lines[j], fallback, k),
    ensures
        apply_lines(fields, name, lines, fallback).dom().contains(k),
        apply_lines(fields, name, lines, fallback)[k] == line_assignment(
            name,
            lines[i],
            fallback,
        ).unwrap().1,
    decreases lines.len(),
{
    if i < lines.len() - 1 {
        let init = lines.drop_last();
        assert(init[i] == lines[i]);
        assert forall|j: int| i < j < init.len() implies !assigns(
            name,
            #[trigger] init[j],
            fallback,
            k,
        ) by {
            assert(init[j] == lines[j]);
        }
        lemma_apply_lines_last(fields, name, init, fallback, k, i);
        assert(!assigns(name, lines[lines.len() - 1], fallback, k));
    }
}

proof fn lemma_apply_lines_untouched(
    fields: Map<Seq<char>, Seq<char>>,
    name: Seq<char>,
    lines: Seq<Seq<char>>,
    fallback: bool,
    k: Seq<char>,
)
    requires
        forall|j: int| 0 <= j < lines.len() ==> !assigns(name, #[trigger] lines[j], fallback, k),
    ensures
        apply_lines(fields, name, lines, fallback).dom().contains(k) == fields.dom().contains(k),
        apply_lines(fields, name, lines, fallback)[k] == fields[k],
    decreases lines.len(),
{
    if lines.len() > 0 {
        let init = lines.drop_last();
        assert forall|j: int| 0 <= j < init.len() implies !assigns(
            name,
            #[trigger] init[j],
            fallback,
            k,
        ) by {
            assert(init[j] == lines[j]);
        }
        lemma_apply_lines_untouched(fields, name, init, fallback, k);
        assert(!assigns(name, lines[lines.len() - 1], fallback, k));
    }
}

/// A field of a parsed entry holds what the last field line that sets it
/// says.
pub proof fn lemma_field_is_last_assignment(
    fields: Map<Seq<char>, Seq<char>>,
    name: Seq<char>,
    content: Seq<char>,
    k: Seq<char>,
    i: int,
)
    requires
        0 <= i < field_lines(content).len(),
        assigns(name, field_lines(content)[i], fallback_applies(content), k),
        forall|j: int|
            i < j < field_lines(content).len() ==> !assigns(
                name,
                #[trigger] field_lines(content)[j],
                fallback_applies(content),
                k,
            ),
    ensures
        parsed_fields(fields, name, content).dom().contains(k),
        parsed_fields(fields, name, content)[k] == line_assignment(
            name,
            field_lines(content)[i],
            fallback_applies(content),
        ).unwrap().1,
{
    lemma_apply_lines_last(
        password_fields(fields, name, content),
        name,
        field_lines(content),
        fallback_applies(content),
        k,
        i,
    );
}

/// A field that no field line sets: the password is the lines before the
/// first `---` line, or the first line alone; a field other than the
/// password and the one-time-password command is what it was before parsing.
pub proof fn lemma_field_unassigned(
    fields: Map<Seq<char>, Seq<char>>,
    name: Seq<char>,
    content: Seq<char>,
    k: Seq<char>,
)
    requires
        forall|j: int|
            0 <= j < field_lines(content).len() ==> !assigns(
                name,
                #[trigger] field_lines(content)[j],
                fallback_applies(content),
                k,
            ),
    ensures
        k == "pass"@ ==> parsed_fields(fields, name, content).dom().contains(k)
            && parsed_fields(fields, name, content)[k] == password_of(content),
        k != "pass"@ && k != ":otp"@ ==> parsed_fields(fields, name, content).dom().contains(k)
            == fields.dom().contains(k) && parsed_fields(fields, name, content)[k] == fields[k],
{
    reveal_strlit(":otp");
    reveal_strlit("pass");
    assert(":otp"@[0] != "pass"@[0]);
    lemma_apply_lines_untouched(
        password_fields(fields, name, content),
        name,
        field_lines(content),
        fallback_applies(content),
        k,
    );
}

/// An `otp_method` line sets the one-time-password command, whatever
/// `otpauth://` keys the text holds, unless a later line sets the command
/// again.
pub proof fn lemma_otp_method_wins(
    fields: Map<Seq<char>, Seq<char>>,
    name: Seq<char>,
    content: Seq<char>,
    i: int,
)
    requires
        0 <= i < field_lines(content).len(),
        is_otp_method_line(field_lines(content)[i]),
        forall|j: int|
            i < j < field_lines(content).len() ==> !assigns(
                name,
                #[trigger] field_lines(content)[j],
                false,
                ":otp"@,
            ),
    ensures
        !fallback_applies(content),
        parsed_fields(fields, name, content).dom().contains(":otp"@),
        parsed_fields(fields, name, content)[":otp"@] == split_field(
            field_lines(content)[i],
        ).unwrap().1,
{
    let fl = field_lines(content);
    assert(has_otp_method(fl)) by {
        assert(is_otp_method_line(fl[i]));
    }
    reveal_strlit("otp_method");
    reveal_strlit("autotype");
    assert("otp_method"@[0] != "autotype"@[0]);
    assert(field_key("otp_method"@) == ":otp"@);
    lemma_field_is_last_assignment(fields, name, content, ":otp"@, i);
}

proof fn lemma_apply_lines_same_value(
    fields: Map<Seq<char>, Seq<char>>,
    name: Seq<char>,
    lines: Seq<Seq<char>>,
    fallback: bool,
    k: Seq<char>,
    v: Seq<char>,
)
    requires
        forall|j: int|
            0 <= j < lines.len() && assigns(name, #[trigger] lines[j], fallback, k)
                ==> line_assignment(name, lines[j], fallback).unwrap().1 == v,
        (fields.dom().contains(k) && fields[k] == v) || exists|j: int|
            0 <= j < lines.len() && assigns(name, #[trigger] lines[j], fallback, k),
    ensures
        apply_lines(fields, name, lines, fallback).dom().contains(k),
        apply_lines(fields, name, lines, fallback)[k] == v,
    decreases lines.len(),
{
    let init = lines.drop_last();
    if lines.len() > 0 {
        assert forall|j: int|
            0 <= j < init.len() && assigns(name, #[trigger] init[j], fallback, k) implies line_assignment(
            name,
            init[j],
            fallback,
        ).unwrap().1 == v by {
            assert(init[j] == lines[j]);
        }
        let last = lines.len() - 1;
        if assigns(name, lines[last], fallback, k) {
            assert(line_assignment(name, lines[last], fallback).unwrap().1 == v);
        } else {
            if !(fields.dom().contains(k) && fields[k] == v) {
                let j = choose|j: int| 0 <= j < lines.len() && assigns(name, #[trigger] lines[j], fallback, k);
                assert(j != last);
                assert(init[j] == lines[j]);
            }
            lemma_apply_lines_same_value(fields, name, init, fallback, k, v);
        }
    }
}

/// Where the text has no `otp_method` line and no line labelled `:otp`, an
/// `otpauth://` key, as the password or on a field line, makes the command
/// `pass otp` followed by the entry's whole name.
pub proof fn lemma_otpauth_fallback(
    fields: Map<Seq<char>, Seq<char>>,
    name: Seq<char>,
    content: Seq<char>,
)
    requires
        !has_otp_method(field_lines(content)),
        forall|j: int|
            0 <= j < field_lines(content).len() ==> !(split_field(
                #[trigger] field_lines(content)[j],
            ) matches Some((label, value)) && label == ":otp"@),
        is_otpauth(password_of(content)) || exists|j: int|
            0 <= j < field_lines(content).len() && is_otpauth(#[trigger] field_lines(content)[j])
                && split_field(field_lines(content)[j]) is None,
    ensures
        parsed_fields(fields, name, content).dom().contains(":otp"@),
        parsed_fields(fields, name, content)[":otp"@] == "pass otp "@ + name,
{
    let fl = field_lines(content);
    reveal_strlit(":otp");
    reveal_strlit("otp_method");
    reveal_strlit(":autotype");
    assert(":otp"@[1] != ":autotype"@[1]);
    assert(":otp"@.len() != "otp_method"@.len());
    assert forall|j: int|
        0 <= j < fl.len() && assigns(name, #[trigger] fl[j], true, ":otp"@) implies line_assignment(
        name,
        fl[j],
        true,
    ).unwrap().1 == otp_fallback(name) by {
        if let Some((label, value)) = split_field(fl[j]) {
            assert(!is_otp_method_line(fl[j]));
        }
    }
    if !is_otpauth(password_of(content)) {
        let j = choose|j: int|
            0 <= j < fl.len() && is_otpauth(#[trigger] fl[j]) && split_field(fl[j]) is None;
        assert(assigns(name, fl[j], true, ":otp"@));
    }
    lemma_apply_lines_same_value(
        password_fields(fields, name, content),
        name,
        fl,
        true,
        ":otp"@,
        otp_fallback(name),
    );
}

/// One step of typing an entry.
#[derive(Debug, PartialEq, Eq)]
pub enum EType {
    Field(String),
    Tab,
    Space,
    Delay,
    Enter,
    Otp,
    Path,
}

/// `e` is the step that the word `w` of a typing sequence names:
/// `:tab`, `:enter`, `:space`, `:delay`, `:otp` and `path` are keys and
/// pauses, any other word is the field of that name.
pub open spec fn step_of_word(e: EType, w: Seq<char>) -> bool {
    if w == ":tab"@ {
        e is Tab
    } else if w == ":enter"@ {
        e is Enter
    } else if w == ":space"@ {
        e is Space
    } else if w == ":delay"@ {
        e is Delay
    } else if w == ":otp"@ {
        e is Otp
    } else if w == "path"@ {
        e is Path
    } else {
        e matches EType::Field(x) && x@ == w
    }
}

/// The step that a word of a typing sequence names.
fn step_for_word(w: String) -> (e: EType)
    ensures
        step_of_word(e, w@),
{
    if str_eq(w.as_str(), ":tab") {
        EType::Tab
    } else if str_eq(w.as_str(), ":enter") {
        EType::Enter
    } else if str_eq(w.as_str(), ":space") {
        EType::Space
    } else if str_eq(w.as_str(), ":delay") {
        EType::Delay
    } else if str_eq(w.as_str(), ":otp") {
        EType::Otp
    } else if str_eq(w.as_str(), "path") {
        EType::Path
    } else {
        EType::Field(w)
    }
}

/// A password-store entry: its name and its fields.
pub struct PassEntry {
    name: String,
    values: FieldMap,
}

impl View for PassEntry {
    type V = (Seq<char>, Map<Seq<char>, Seq<char>>);

    closed spec fn view(&self) -> (Seq<char>, Map<Seq<char>, Seq<char>>) {
        (self.name@, self.values@)
    }
}

/// A line cut at its first `: `, where it has one.
fn split_line(line: &str) -> (r: Option<(String, String)>)
    ensures
        r is None <==> split_field(line@) is None,
        r matches Some((label, value)) ==> split_field(line@) == Some((label@, value@)),
{
    proof {
        reveal_strlit(": ");
        assert(": "@.len() == 2);
    }
    let cs = chars_of(line);
    let sep = chars_of(": ");
    let mut i: usize = 0;
    while i < cs.len() && !matches_at(&cs, &sep, i)
        invariant
            cs@ == line@,
            sep@ == ": "@,
            i <= cs.len(),
            forall|j: int| 0 <= j < i ==> !occurs_at(line@, ": "@, j),
        decreases cs.len() - i,
    {
        i += 1;
    }
    if i < cs.len() {
        assert(is_first_sep(line@, i as int));
        assert(forall|j: int| is_first_sep(line@, j) ==> j == i);
        let label = substring(line, 0, i);
        let value = substring(line, i + 2, cs.len());
        assert(label@ =~= line@.take(i as int));
        assert(value@ =~= line@.skip(i + 2));
        Some((label, value))
    } else {
        assert forall|j: int| !is_first_sep(line@, j) by {
            if j >= i && occurs_at(line@, ": "@, j) {
                assert(j + 2 <= line@.len());
            }
        }
        None
    }
}

/// Sets the fields that one more field line of the text of entry `name`
/// sets.
fn read_line(values: &mut FieldMap, name: &str, line: &str, fallback: bool)
    ensures
        final(values)@ == apply_line(old(values)@, name@, line@, fallback),
{
    match split_line(line) {
        Some((label, value)) => {
            let key = if str_eq(label.as_str(), "autotype") {
                ":autotype".to_owned()
            } else if str_eq(label.as_str(), "otp_method") {
                ":otp".to_owned()
            } else {
                label
            };
            values.insert(key, value);
        },
        None => {
            if fallback && starts_with(line, "otpauth://") {
                let mut cmd = "pass otp ".to_owned();
                cmd.append(name);
                values.insert(":otp".to_owned(), cmd);
            }
        },
    }
}

/// Reads the text that `pass show` printed for `entry` into its fields:
/// the password is the first line, or the lines before a `---` line; the
/// lines after it set fields with `label: value`; `otp_method` gives the
/// one-time-password command, and where there is none an `otpauth://` key
/// makes it `pass otp <name>`.
pub fn parse_entry_string(content: &str, entry: &mut PassEntry)
    requires
        old(entry).wf(),
    ensures
        final(entry).wf(),
        final(entry)@.0 == old(entry)@.0,
        final(entry)@.1 == parsed_fields(old(entry)@.1, old(entry)@.0, content@),
{
    let ghost name = entry@.0;
    let ghost start = entry@.1;
    let lines = split_lines(content);
    let ghost ls = lines_of(content@);
    proof {
        crate::text::lemma_split_on_len(content@, '\n');
    }
    let n = lines.len();
    // The line `---` that ends a password of several lines.
    let mut k: usize = 1;
    while k < n && !str_eq(lines[k].as_str(), "---")
        invariant
            views(lines@) == ls,
            n == ls.len(),
            1 <= k <= n,
            forall|j: int| 1 <= j < k ==> ls[j] != "---"@,
        decreases n - k,
    {
        k += 1;
    }
    let pw_len: usize = if k < n {
        k
    } else {
        1
    };
    let fstart: usize = if k < n {
        k + 1
    } else {
        1
    };
    proof {
        if k < n {
            assert(is_first_rule(ls, k as int));
            assert(forall|j: int| is_first_rule(ls, j) ==> j == k);
        } else {
            assert(forall|j: int| !is_first_rule(ls, j));
        }
    }
    assert(pw_len == password_len(ls) && fstart == fields_start(ls));
    // The password.
    let mut pw = lines[0].clone();
    let mut j: usize = 1;
    assert(ls.take(1) =~= seq![ls[0]]);
    while j < pw_len
        invariant
            views(lines@) == ls,
            n == ls.len(),
            1 <= j <= pw_len <= n,
            pw@ == join_lines(ls.take(j as int)),
        decreases pw_len - j,
    {
        assert(ls.take(j + 1).drop_last() =~= ls.take(j as int));
        assert(ls.take(j + 1).last() == ls[j as int]);
        pw.append("\n");
        pw.append(lines[j].as_str());
        j += 1;
    }
    assert(pw@ == password_of(content@));
    let ghost fl = ls.skip(fstart as int);
    assert(fl == field_lines(content@));
    // Whether an `otp_method` line gives the command.
    let mut has_method = false;
    let mut j: usize = fstart;
    while j < n
        invariant
            views(lines@) == ls,
            n == ls.len(),
            fstart <= j <= n,
            fl == ls.skip(fstart as int),
            has_method == exists|i: int| fstart <= i < j && is_otp_method_line(#[trigger] ls[i]),
        decreases n - j,
    {
        let ghost before = has_method;
        match split_line(lines[j].as_str()) {
            Some((label, value)) => {
                if str_eq(label.as_str(), "otp_method") {
                    has_method = true;
                }
            },
            None => {},
        }
        assert(has_method == (before || is_otp_method_line(ls[j as int])));
        j += 1;
    }
    proof {
        if has_method {
            let i = choose|i: int| fstart <= i < n && is_otp_method_line(#[trigger] ls[i]);
            assert(fl[i - fstart] == ls[i]);
        }
        if has_otp_method(fl) {
            let i = choose|i: int| 0 <= i < fl.len() && is_otp_method_line(#[trigger] fl[i]);
            assert(fl[i] == ls[i + fstart]);
        }
    }
    let fallback = !has_method;
    assert(fallback == fallback_applies(content@));
    let starts_otp = starts_with(pw.as_str(), "otpauth://");
    entry.values.insert("pass".to_owned(), pw);
    if fallback && starts_otp {
        let mut cmd = "pass otp ".to_owned();
        cmd.append(entry.name.as_str());
        entry.values.insert(":otp".to_owned(), cmd);
    }
    let ghost first = password_fields(start, name, content@);
    assert(entry.values@ == first);
    let mut i: usize = fstart;
    assert(fl.take(0) =~= Seq::<Seq<char>>::empty());
    while i < n
        invariant
            views(lines@) == ls,
            n == ls.len(),
            fstart <= i <= n,
            fl == ls.skip(fstart as int),
            entry.name@ == name,
            entry.values@ == apply_lines(first, name, fl.take(i - fstart), fallback),
        decreases n - i,
    {
        assert(fl.take(i + 1 - fstart).drop_last() =~= fl.take(i - fstart));
        assert(fl.take(i + 1 - fstart).last() == lines@[i as int]@);
        read_line(&mut entry.values, entry.name.as_str(), lines[i].as_str(), fallback);
        i += 1;
    }
    assert(fl.take(n - fstart) =~= fl);
    proof {
        lemma_parsed_fields_grow(start, name, content@, ":autotype"@);
    }
}

impl PassEntry {
    /// The entry has a typing sequence.
    pub closed spec fn wf(&self) -> bool {
        self.values@.dom().contains(":autotype"@)
    }

    /// A new entry `name` for the user `user`, with the default fields.
    pub fn new(name: String, user: String) -> (e: PassEntry)
        ensures
            e.wf(),
            e@ == (name@, default_fields(user@)),
    {
        let mut values = FieldMap::new();
        values.insert(":autotype".to_owned(), "user :tab pass".to_owned());
        values.insert("user".to_owned(), user);
        PassEntry { name, values }
    }

    /// The entry `entry_name` of the user `user`, read from what
    /// `pass show entry_name` printed; none where the command failed.
    pub fn from_pass(entry_name: &str, user: &str, output: Option<&str>) -> (r: Option<Self>)
        ensures
            r is Some <==> output is Some,
            r matches Some(e) ==> e.wf(),
            r matches Some(e) ==> e@ == (entry_name@, parsed_fields(
                default_fields(user@),
                entry_name@,
                output.unwrap()@,
            )),
    {
        match output {
            Some(text) => {
                let mut entry = Self::new(entry_name.to_owned(), user.to_owned());
                parse_entry_string(text, &mut entry);
                Some(entry)
            },
            None => None,
        }
    }

    /// The names of the fields, each once, in the order of strings.
    pub fn list_fields(&self) -> (res: Vec<String>)
        ensures
            crate::fields::strictly_sorted(views(res@)),
            forall|k: Seq<char>| views(res@).contains(k) <==> self@.1.dom().contains(k),
    {
        self.values.sorted_names()
    }

    /// The value of the field `field_name`, if the entry has it.
    pub fn lookup(&self, field_name: &str) -> (r: Option<&String>)
        ensures
            r is Some <==> self@.1.dom().contains(field_name@),
            r matches Some(v) ==> v@ == self@.1[field_name@],
    {
        self.values.get(field_name)
    }

    /// The value of the field `field_name`, which the entry has.
    pub fn get(&self, field_name: &str) -> (r: &String)
        requires
            self@.1.dom().contains(field_name@),
        ensures
            r@ == self@.1[field_name@],
    {
        match self.values.get(field_name) {
            Some(v) => v,
            None => {
                assert(false);
                &self.name
            },
        }
    }

    /// The number of fields.
    pub fn field_count(&self) -> (n: usize)
        ensures
            self@.1.dom().finite(),
            n == self@.1.dom().len(),
    {
        self.values.len()
    }

    /// The entry's name in the store.
    pub fn get_name(&self) -> (r: &String)
        ensures
            r@ == self@.0,
    {
        &self.name
    }

    /// The one-time password that the entry's command (its field `:otp`,
    /// which it must have) printed: the output without trailing white space,
    /// or empty where the command failed.
    pub fn gen_otp(&self, output: Option<&str>) -> (r: String)
        requires
            self@.1.dom().contains(":otp"@),
        ensures
            r@ == match output {
                Some(o) => trim_end_of(o@),
                None => Seq::<char>::empty(),
            },
    {
        match output {
            Some(o) => trim_end(o),
            None => String::new(),
        }
    }

    /// The steps that type the entry: one for each word of its typing
    /// sequence, in order.
    pub fn autoseq(&self) -> (res: Vec<EType>)
        requires
            self.wf(),
        ensures
            res@.len() == words_of(self@.1[":autotype"@]).len(),
            forall|i: int|
                0 <= i < res@.len() ==> step_of_word(
                    #[trigger] res@[i],
                    words_of(self@.1[":autotype"@])[i],
                ),
    {
        let words = split_whitespace(self.get(":autotype").as_str());
        let ghost ws = views(words@);
        let mut res: Vec<EType> = Vec::new();
        let mut i: usize = 0;
        while i < words.len()
            invariant
                ws == views(words@),
                ws == words_of(self@.1[":autotype"@]),
                i <= words@.len(),
                res@.len() == i,
                forall|j: int| 0 <= j < i ==> step_of_word(#[trigger] res@[j], ws[j]),
            decreases words.len() - i,
        {
            let w = words[i].clone();
            res.push(step_for_word(w));
            i += 1;
        }
        res
    }
}

} // verus!

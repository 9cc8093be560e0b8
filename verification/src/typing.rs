//! What to do once an entry is chosen: the action that the field menu picks,
//! and the keystrokes and pauses that carry it out.
use vstd::prelude::*;
use vstd::string::*;
use crate::pass::{EType, PassEntry, step_of_word};
use crate::text::{str_eq, words_of};

verus! {

broadcast use vstd::string::group_string_axioms;

/// What the field menu asked for.
#[derive(Debug, PartialEq, Eq)]
pub enum Action {
    /// Type the entry's typing sequence.
    Autotype,
    /// Type the value of one field.
    PrintField(String),
    /// Nothing was chosen.
    Nothing,
}

/// The action that the choice in the field menu asks for: `autotype` types
/// the typing sequence, any other choice the field of that name.
pub fn select_action(choice: Option<String>) -> (a: Action)
    ensures
        match choice {
            Some(x) => if x@ == "autotype"@ {
                a is Autotype
            } else {
                a == Action::PrintField(x)
            },
            None => a is Nothing,
        },
{
    match choice {
        Some(x) => if str_eq(x.as_str(), "autotype") {
            Action::Autotype
        } else {
            Action::PrintField(x)
        },
        None => Action::Nothing,
    }
}

/// One thing to send while typing: text, a named key, or a pause in
/// milliseconds.
#[derive(Debug, PartialEq, Eq)]
pub enum Keystroke {
    Text(String),
    Key(String),
    Pause(u64),
}

/// The mathematical form of a keystroke.
pub enum Stroke {
    Text(Seq<char>),
    Key(Seq<char>),
    Pause(u64),
}

impl View for Keystroke {
    type V = Stroke;

    open spec fn view(&self) -> Stroke {
        match self {
            Keystroke::Text(s) => Stroke::Text(s@),
            Keystroke::Key(s) => Stroke::Key(s@),
            Keystroke::Pause(n) => Stroke::Pause(*n),
        }
    }
}

/// The views of a list of keystrokes.
pub open spec fn stroke_views(v: Seq<Keystroke>) -> Seq<Stroke> {
    v.map_values(|k: Keystroke| k@)
}

/// The word `w` can be typed: it is not the one-time password, which is not
/// typed yet, and where it names a field the entry has that field.
pub open spec fn word_typable(fields: Map<Seq<char>, Seq<char>>, w: Seq<char>) -> bool {
    if w == ":tab"@ || w == ":enter"@ || w == ":space"@ || w == ":delay"@ {
        true
    } else if w == ":otp"@ {
        false
    } else if w == "path"@ {
        true
    } else {
        fields.dom().contains(w)
    }
}

/// The keys, the pause and the entry's name can be typed on every entry,
/// whatever its fields; the one-time password never.
pub proof fn lemma_keys_always_typable(fields: Map<Seq<char>, Seq<char>>)
    ensures
        word_typable(fields, ":tab"@),
        word_typable(fields, ":enter"@),
        word_typable(fields, ":space"@),
        word_typable(fields, ":delay"@),
        word_typable(fields, "path"@),
        !word_typable(fields, ":otp"@),
{
    reveal_strlit(":tab");
    reveal_strlit(":enter");
    reveal_strlit(":space");
    reveal_strlit(":delay");
    reveal_strlit(":otp");
    reveal_strlit("path");
    assert(":otp"@[1] != ":tab"@[1]);
    assert(":otp"@[1] != ":enter"@[1]);
    assert(":otp"@[1] != ":space"@[1]);
    assert(":otp"@[1] != ":delay"@[1]);
    assert("path"@[0] != ":tab"@[0]);
    assert("path"@[0] != ":enter"@[0]);
    assert("path"@[0] != ":space"@[0]);
    assert("path"@[0] != ":delay"@[0]);
    assert("path"@[0] != ":otp"@[0]);
}

/// Any other word names a field, and can be typed exactly where the entry
/// has that field.
pub proof fn lemma_field_word_typable(fields: Map<Seq<char>, Seq<char>>, w: Seq<char>)
    requires
        w != ":tab"@,
        w != ":enter"@,
        w != ":space"@,
        w != ":delay"@,
        w != ":otp"@,
        w != "path"@,
    ensures
        word_typable(fields, w) == fields.dom().contains(w),
{
}

/// A typing sequence made of the keys, the pause, `path` and fields that the
/// entry has can be typed.
pub proof fn lemma_autotype_typable(e: (Seq<char>, Map<Seq<char>, Seq<char>>))
    requires
        forall|i: int|
            0 <= i < words_of(e.1[":autotype"@]).len() ==> {
                let w = #[trigger] words_of(e.1[":autotype"@])[i];
                ||| w == ":tab"@
                ||| w == ":enter"@
                ||| w == ":space"@
                ||| w == ":delay"@
                ||| w == "path"@
                ||| e.1.dom().contains(w) && w != ":otp"@
            },
    ensures
        action_typable(e, Action::Autotype),
{
    lemma_keys_always_typable(e.1);
    assert forall|i: int| 0 <= i < words_of(e.1[":autotype"@]).len() implies word_typable(
        e.1,
        #[trigger] words_of(e.1[":autotype"@])[i],
    ) by {
        let w = words_of(e.1[":autotype"@])[i];
        if w != ":tab"@ && w != ":enter"@ && w != ":space"@ && w != ":delay"@ && w != "path"@ {
            lemma_field_word_typable(e.1, w);
        }
    }
}

/// What typing the word `w` of the typing sequence of the entry `name` with
/// fields `fields` sends: a field's value, the entry's name for `path`, the
/// tab key and a pause of 250 ms, the return or space key, or a pause of
/// 200 ms for `:delay`.
pub open spec fn word_strokes(
    fields: Map<Seq<char>, Seq<char>>,
    name: Seq<char>,
    w: Seq<char>,
) -> Seq<Stroke> {
    if w == ":tab"@ {
        seq![Stroke::Key("tab"@), Stroke::Pause(250)]
    } else if w == ":enter"@ {
        seq![Stroke::Key("return"@)]
    } else if w == ":space"@ {
        seq![Stroke::Key("space"@)]
    } else if w == ":delay"@ {
        seq![Stroke::Pause(200)]
    } else if w == "path"@ {
        seq![Stroke::Text(name)]
    } else {
        seq![Stroke::Text(fields[w])]
    }
}

/// What typing the words `words` sends, word after word.
pub open spec fn words_strokes(
    fields: Map<Seq<char>, Seq<char>>,
    name: Seq<char>,
    words: Seq<Seq<char>>,
) -> Seq<Stroke>
    decreases words.len(),
{
    if words.len() == 0 {
        Seq::<Stroke>::empty()
    } else {
        words_strokes(fields, name, words.drop_last()) + word_strokes(fields, name, words.last())
    }
}

/// The action can be carried out on the entry without a missing field or an
/// untyped one-time password.
pub open spec fn action_typable(e: (Seq<char>, Map<Seq<char>, Seq<char>>), a: Action) -> bool {
    match a {
        Action::Autotype => forall|i: int|
            0 <= i < words_of(e.1[":autotype"@]).len() ==> word_typable(
                e.1,
                #[trigger] words_of(e.1[":autotype"@])[i],
            ),
        Action::PrintField(x) => e.1.dom().contains(x@),
        Action::Nothing => true,
    }
}

/// What carrying out the action on the entry sends.
pub open spec fn action_strokes(e: (Seq<char>, Map<Seq<char>, Seq<char>>), a: Action) -> Seq<
    Stroke,
> {
    match a {
        Action::Autotype => words_strokes(e.1, e.0, words_of(e.1[":autotype"@])),
        Action::PrintField(x) => seq![Stroke::Text(e.1[x@])],
        Action::Nothing => Seq::<Stroke>::empty(),
    }
}

/// The step can be typed on an entry with fields `fields`: it is not the
/// one-time password, which is not typed yet, and where it is a field the
/// entry has that field.
pub open spec fn step_typable(fields: Map<Seq<char>, Seq<char>>, e: EType) -> bool {
    match e {
        EType::Field(x) => fields.dom().contains(x@),
        EType::Otp => false,
        _ => true,
    }
}

/// What typing the step `e` of the entry `name` with fields `fields` sends.
pub open spec fn step_strokes_of(
    fields: Map<Seq<char>, Seq<char>>,
    name: Seq<char>,
    e: EType,
) -> Seq<Stroke> {
    match e {
        EType::Field(x) => seq![Stroke::Text(fields[x@])],
        EType::Tab => seq![Stroke::Key("tab"@), Stroke::Pause(250)],
        EType::Enter => seq![Stroke::Key("return"@)],
        EType::Space => seq![Stroke::Key("space"@)],
        EType::Delay => seq![Stroke::Pause(200)],
        EType::Path => seq![Stroke::Text(name)],
        EType::Otp => Seq::<Stroke>::empty(),
    }
}

/// The step that a word names sends what typing the word sends.
pub proof fn lemma_step_strokes_of_word(
    fields: Map<Seq<char>, Seq<char>>,
    name: Seq<char>,
    e: EType,
    w: Seq<char>,
)
    requires
        step_of_word(e, w),
        word_typable(fields, w),
    ensures
        step_typable(fields, e),
        step_strokes_of(fields, name, e) == word_strokes(fields, name, w),
{
}

/// The keystrokes that type one step of an entry's typing sequence.
pub fn step_keystrokes(entry: &PassEntry, step: &EType) -> (r: Vec<Keystroke>)
    requires
        step_typable(entry@.1, *step),
    ensures
        stroke_views(r@) == step_strokes_of(entry@.1, entry@.0, *step),
{
    let mut r: Vec<Keystroke> = Vec::new();
    match step {
        EType::Field(x) => {
            r.push(Keystroke::Text(entry.get(x.as_str()).clone()));
        },
        EType::Tab => {
            r.push(Keystroke::Key("tab".to_owned()));
            r.push(Keystroke::Pause(250));
        },
        EType::Enter => {
            r.push(Keystroke::Key("return".to_owned()));
        },
        EType::Space => {
            r.push(Keystroke::Key("space".to_owned()));
        },
        EType::Delay => {
            r.push(Keystroke::Pause(200));
        },
        EType::Path => {
            r.push(Keystroke::Text(entry.get_name().clone()));
        },
        EType::Otp => {
            assert(false);
        },
    }
    assert(stroke_views(r@) =~= step_strokes_of(entry@.1, entry@.0, *step));
    r
}

/// Whether the action can be carried out on the entry: typing does not
/// reach a field the entry lacks, or the one-time password.
pub fn can_type(entry: &PassEntry, action: &Action) -> (r: bool)
    requires
        entry.wf(),
    ensures
        r == action_typable(entry@, *action),
{
    match action {
        Action::Autotype => {
            let steps = entry.autoseq();
            let ghost ws = words_of(entry@.1[":autotype"@]);
            let mut i: usize = 0;
            while i < steps.len()
                invariant
                    ws == words_of(entry@.1[":autotype"@]),
                    steps@.len() == ws.len(),
                    forall|j: int| 0 <= j < steps@.len() ==> step_of_word(#[trigger] steps@[j], ws[j]),
                    i <= steps@.len(),
                    *action is Autotype,
                    forall|j: int| 0 <= j < i ==> word_typable(entry@.1, #[trigger] ws[j]),
                decreases steps.len() - i,
            {
                let ghost w = ws[i as int];
                assert(step_of_word(steps@[i as int], w));
                let ok = match &steps[i] {
                    EType::Field(x) => entry.lookup(x.as_str()).is_some(),
                    EType::Otp => false,
                    _ => true,
                };
                if !ok {
                    assert(!word_typable(entry@.1, words_of(entry@.1[":autotype"@])[i as int]));
                    return false;
                }
                i += 1;
            }
            true
        },
        Action::PrintField(x) => entry.lookup(x.as_str()).is_some(),
        Action::Nothing => true,
    }
}

/// The keystrokes that carry out the action on the entry.
pub fn keystrokes(entry: &PassEntry, action: &Action) -> (r: Vec<Keystroke>)
    requires
        entry.wf(),
        action_typable(entry@, *action),
    ensures
        stroke_views(r@) == action_strokes(entry@, *action),
{
    match action {
        Action::Autotype => {
            let steps = entry.autoseq();
            let ghost ws = words_of(entry@.1[":autotype"@]);
            let mut r: Vec<Keystroke> = Vec::new();
            let mut i: usize = 0;
            assert(ws.take(0) =~= Seq::<Seq<char>>::empty());
            while i < steps.len()
                invariant
                    ws == words_of(entry@.1[":autotype"@]),
                    steps@.len() == ws.len(),
                    forall|j: int| 0 <= j < steps@.len() ==> step_of_word(#[trigger] steps@[j], ws[j]),
                    forall|j: int| 0 <= j < ws.len() ==> word_typable(entry@.1, #[trigger] ws[j]),
                    i <= steps@.len(),
                    stroke_views(r@) == words_strokes(entry@.1, entry@.0, ws.take(i as int)),
                decreases steps.len() - i,
            {
                let ghost before = stroke_views(r@);
                proof {
                    lemma_step_strokes_of_word(entry@.1, entry@.0, steps@[i as int], ws[i as int]);
                }
                let mut more = step_keystrokes(entry, &steps[i]);
                r.append(&mut more);
                assert(ws.take(i + 1).drop_last() =~= ws.take(i as int));
                assert(stroke_views(r@) =~= before + word_strokes(entry@.1, entry@.0, ws[i as int]));
                i += 1;
            }
            assert(ws.take(i as int) =~= ws);
            r
        },
        Action::PrintField(x) => {
            let mut r: Vec<Keystroke> = Vec::new();
            r.push(Keystroke::Text(entry.get(x.as_str()).clone()));
            assert(stroke_views(r@) =~= action_strokes(entry@, *action));
            r
        },
        Action::Nothing => {
            let r: Vec<Keystroke> = Vec::new();
            assert(stroke_views(r@) =~= Seq::<Stroke>::empty());
            r
        },
    }
}

} // verus!

//! The menus: what the menu tool is run with, what it is fed, and what its
//! output chooses.
use vstd::prelude::*;
use vstd::string::*;
use crate::conf::OfiTool;
use crate::text::{
    is_space, lemma_trim_end_shape, lemma_trim_start_shape, trim, trim_end_of, trim_of, views,
};

verus! {

broadcast use vstd::string::group_string_axioms;

/// The text that feeds a menu its choices: each on a line of its own.
pub open spec fn menu_text(choices: Seq<Seq<char>>) -> Seq<char>
    decreases choices.len(),
{
    if choices.len() == 0 {
        Seq::<char>::empty()
    } else {
        menu_text(choices.drop_last()) + choices.last() + "\n"@
    }
}

/// The text that feeds a menu the choices `choices`.
pub fn menu_input(choices: &Vec<String>) -> (r: String)
    ensures
        r@ == menu_text(views(choices@)),
{
    let mut r = String::new();
    let mut i: usize = 0;
    assert(views(choices@).take(0) =~= Seq::<Seq<char>>::empty());
    while i < choices.len()
        invariant
            i <= choices@.len(),
            r@ == menu_text(views(choices@).take(i as int)),
        decreases choices.len() - i,
    {
        assert(views(choices@).take(i + 1).drop_last() =~= views(choices@).take(i as int));
        r.append(choices[i].as_str());
        r.append("\n");
        i += 1;
    }
    assert(views(choices@).take(i as int) =~= views(choices@));
    r
}

/// What a menu's output chooses: the output without surrounding white space;
/// `rofi` chooses nothing where that is empty. Output that is not valid
/// Unicode chooses nothing.
pub open spec fn choice_of(tool: OfiTool, output: Option<Seq<char>>) -> Option<Seq<char>> {
    match output {
        Some(o) => match tool {
            OfiTool::Rofi => if trim_of(o).len() == 0 {
                None
            } else {
                Some(trim_of(o))
            },
            OfiTool::Wofi => Some(trim_of(o)),
        },
        None => None,
    }
}

/// Every character of `s` is white space.
pub open spec fn all_space(s: Seq<char>) -> bool {
    forall|i: int| 0 <= i < s.len() ==> is_space(#[trigger] s[i])
}

/// What a menu's output chooses is the whole output with only the white
/// space at its two ends taken off: the output is white space, the choice,
/// and white space, and the choice neither starts nor ends with white space.
/// `rofi` chooses nothing exactly where the output is all white space; `wofi`
/// always chooses.
pub proof fn lemma_choice_is_output_without_outer_space(tool: OfiTool, o: Seq<char>)
    ensures
        choice_of(tool, Some(o)) matches Some(c) ==> exists|lead: Seq<char>, trail: Seq<char>|
            o == lead + c + trail && all_space(lead) && all_space(trail) && (c.len() > 0
                ==> !is_space(c[0]) && !is_space(c[c.len() - 1])),
        choice_of(tool, Some(o)) is None <==> (tool == OfiTool::Rofi && all_space(o)),
        choice_of(tool, None) is None,
{
    let k1 = lemma_trim_end_shape(o);
    let e = trim_end_of(o);
    let k2 = lemma_trim_start_shape(e);
    let c = trim_of(o);
    assert(c =~= o.subrange(k2, k1));
    let lead = o.take(k2);
    let trail = o.skip(k1);
    assert(o =~= lead + c + trail);
    assert(all_space(lead)) by {
        assert forall|i: int| 0 <= i < lead.len() implies is_space(#[trigger] lead[i]) by {
            assert(e[i] == o[i]);
        }
    }
    assert(all_space(trail)) by {
        assert forall|i: int| 0 <= i < trail.len() implies is_space(#[trigger] trail[i]) by {
            assert(trail[i] == o[i + k1]);
        }
    }
    if c.len() > 0 {
        assert(c[0] == e[k2]);
        assert(c[c.len() - 1] == o[k1 - 1]);
    }
    if all_space(o) && k1 > 0 {
        assert(is_space(o[k1 - 1]));
    }
    if c.len() == 0 {
        assert forall|i: int| 0 <= i < o.len() implies is_space(#[trigger] o[i]) by {
            if i < k2 {
                assert(e[i] == o[i]);
            }
        }
    }
    assert(choice_of(tool, Some(o)) matches Some(x) ==> x == c);
}

/// The arguments that run a menu tool, where `default` is the choice to
/// preselect. `wofi` takes no preselection.
pub open spec fn menu_args(tool: OfiTool, default: Option<Seq<char>>) -> Seq<Seq<char>> {
    match tool {
        OfiTool::Rofi => {
            let base = seq!["-dmenu"@, "-i"@, "-p"@, ">"@];
            match default {
                Some(d) => base + seq!["-select"@, d],
                None => base,
            }
        },
        OfiTool::Wofi => seq!["--dmenu"@],
    }
}

impl OfiTool {
    /// The program that shows the menu.
    pub fn program(&self) -> (r: String)
        ensures
            r@ == match self {
                OfiTool::Rofi => "rofi"@,
                OfiTool::Wofi => "wofi"@,
            },
    {
        match self {
            OfiTool::Rofi => "rofi".to_owned(),
            OfiTool::Wofi => "wofi".to_owned(),
        }
    }

    /// The arguments that run the menu, preselecting `default`.
    pub fn args(&self, default: Option<&str>) -> (r: Vec<String>)
        ensures
            views(r@) == menu_args(
                *self,
                match default {
                    Some(d) => Some(d@),
                    None => None,
                },
            ),
    {
        let mut r: Vec<String> = Vec::new();
        match self {
            OfiTool::Rofi => {
                r.push("-dmenu".to_owned());
                r.push("-i".to_owned());
                r.push("-p".to_owned());
                r.push(">".to_owned());
                match default {
                    Some(d) => {
                        r.push("-select".to_owned());
                        r.push(d.to_owned());
                    },
                    None => {},
                }
            },
            OfiTool::Wofi => {
                r.push("--dmenu".to_owned());
            },
        }
        assert(views(r@) =~= menu_args(
            *self,
            match default {
                Some(d) => Some(d@),
                None => None,
            },
        ));
        r
    }

    /// The choice that the menu's `output` makes (none where the output was
    /// not valid Unicode).
    pub fn select(&self, output: Option<&str>) -> (r: Option<String>)
        ensures
            match r {
                Some(s) => Some(s@),
                None => None,
            } == choice_of(
                *self,
                match output {
                    Some(o) => Some(o@),
                    None => None,
                },
            ),
    {
        match output {
            Some(o) => {
                let t = trim(o);
                match self {
                    OfiTool::Rofi => if t.as_str().is_empty() {
                        None
                    } else {
                        Some(t)
                    },
                    OfiTool::Wofi => Some(t),
                }
            },
            None => None,
        }
    }
}

} // verus!

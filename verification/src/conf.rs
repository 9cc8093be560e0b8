//! The configuration: which menu tool prompts, the password stores, and the
//! entry chosen last time, kept in a small file of two lines.
use vstd::prelude::*;
use vstd::string::*;
use crate::text::{chars_of, lemma_split_on_concat, lemma_split_on_len, lemma_split_on_no_sep, lines_of, split_lines, str_eq, views};

verus! {

broadcast use vstd::string::group_string_axioms;

/// The tool that shows the menus.
#[derive(Debug, Clone, Copy, PartialEq, Eq, Structural)]
pub enum OfiTool {
    Wofi,
    Rofi,
}

/// The tool that the variable `OFI_TOOL` picks: `wofi` where it says so,
/// `rofi` otherwise, also where it is unset or not valid Unicode.
pub open spec fn tool_for(var: Option<Seq<char>>) -> OfiTool {
    if var == Some("wofi"@) {
        OfiTool::Wofi
    } else {
        OfiTool::Rofi
    }
}

/// `i` is the first position of `p` in `dirs`.
pub open spec fn is_first_index(dirs: Seq<Seq<char>>, p: Seq<char>, i: int) -> bool {
    &&& 0 <= i < dirs.len()
    &&& dirs[i] == p
    &&& forall|j: int| 0 <= j < i ==> dirs[j] != p
}

/// The stores after choosing the store `p`: where it is among them, the list
/// is rotated so that it comes first, the others keeping their cyclic order;
/// otherwise the list is unchanged.
pub open spec fn rotated_to(dirs: Seq<Seq<char>>, p: Seq<char>) -> Seq<Seq<char>> {
    if exists|i: int| is_first_index(dirs, p, i) {
        let i = choose|i: int| is_first_index(dirs, p, i);
        dirs.skip(i) + dirs.take(i)
    } else {
        dirs
    }
}

/// What the file of the last choice holds after choosing `entry` in the
/// store `path`: the entry's name, a newline, and the store's path.
pub open spec fn saved_content(entry: Seq<char>, path: Seq<char>) -> Seq<char> {
    entry + "\n"@ + path
}

/// The entry that the file of the last choice names: its first line.
pub open spec fn loaded_entry(content: Option<Seq<char>>) -> Option<Seq<char>> {
    match content {
        Some(c) => Some(lines_of(c)[0]),
        None => None,
    }
}

/// The stores after reading the file of the last choice: rotated to the
/// store that its second line names, where it has one.
pub open spec fn dirs_after_load(dirs: Seq<Seq<char>>, content: Option<Seq<char>>) -> Seq<
    Seq<char>,
> {
    match content {
        Some(c) => if lines_of(c).len() >= 2 {
            rotated_to(dirs, lines_of(c)[1])
        } else {
            dirs
        },
        None => dirs,
    }
}

/// `base` joined with the relative path `name`, as `Path::join` joins a
/// relative path: a `/` between them, unless `base` is empty or already ends
/// with one.
pub open spec fn path_join(base: Seq<char>, name: Seq<char>) -> Seq<char> {
    if base.len() == 0 || base.last() == '/' {
        base + name
    } else {
        base + "/"@ + name
    }
}

/// `base` joined with the relative path `name`.
pub fn join_path(base: &str, name: &str) -> (r: String)
    ensures
        r@ == path_join(base@, name@),
{
    let cs = chars_of(base);
    let mut r = base.to_owned();
    if cs.len() > 0 && cs[cs.len() - 1] != '/' {
        r.append("/");
    }
    r.append(name);
    r
}

/// The store of the user whose home directory is `home`: its
/// `.password-store` directory.
pub open spec fn default_store(home: Seq<char>) -> Seq<char> {
    path_join(home, ".password-store"@)
}

/// Where the stores and the file of the last choice are.
pub struct StorePaths {
    store_dirs: Vec<String>,
    data_dir: String,
}

impl StorePaths {
    /// The paths of the stores, the current one first.
    pub closed spec fn dirs(&self) -> Seq<Seq<char>> {
        views(self.store_dirs@)
    }

    /// The directory that holds the file of the last choice.
    pub closed spec fn data(&self) -> Seq<char> {
        self.data_dir@
    }
}

/// The configuration.
pub struct Config {
    pub ofi_tool: OfiTool,
    pub paths: StorePaths,
}

impl Config {
    /// There is at least one store.
    pub open spec fn wf(&self) -> bool {
        self.paths.dirs().len() > 0
    }

    /// The tool that shows the menus: the field `ofi_tool`.
    pub open spec fn tool(&self) -> OfiTool {
        self.ofi_tool
    }

    /// The paths of the stores, the current one first.
    pub open spec fn stores(&self) -> Seq<Seq<char>> {
        self.paths.dirs()
    }

    /// The directory that holds the file of the last choice.
    pub open spec fn data_dir_view(&self) -> Seq<char> {
        self.paths.data()
    }

    /// The configuration with the tool that `OFI_TOOL` (here `ofi_tool_var`)
    /// names, the single store `.password-store` in the home directory
    /// `home_dir`, and the data directory `data_dir`.
    pub fn new(ofi_tool_var: Option<&str>, home_dir: &str, data_dir: String) -> (c: Config)
        ensures
            c.wf(),
            c.tool() == tool_for(
                match ofi_tool_var {
                    Some(v) => Some(v@),
                    None => None,
                },
            ),
            c.stores() == seq![default_store(home_dir@)],
            c.data_dir_view() == data_dir@,
    {
        let ofi_tool = match ofi_tool_var {
            Some(x) => if str_eq(x, "wofi") {
                OfiTool::Wofi
            } else {
                OfiTool::Rofi
            },
            None => OfiTool::Rofi,
        };
        let store_dir = join_path(home_dir, ".password-store");
        let mut store_dirs: Vec<String> = Vec::new();
        store_dirs.push(store_dir);
        let c = Config { ofi_tool, paths: StorePaths { store_dirs, data_dir } };
        assert(c.stores() =~= seq![store_dir@]);
        c
    }

    /// The path of the current store.
    pub fn get_path(&self) -> (p: &String)
        requires
            self.wf(),
        ensures
            p@ == self.stores()[0],
    {
        &self.paths.store_dirs[0]
    }

    /// The directory that holds the file of the last choice.
    pub fn data_dir(&self) -> (d: &String)
        ensures
            d@ == self.data_dir_view(),
    {
        &self.paths.data_dir
    }

    /// Reads the file of the last choice, whose text is `content` (none where
    /// it could not be read): gives the entry it names, and makes the store
    /// it names the current one.
    pub fn load(&mut self, content: Option<&str>) -> (r: Option<String>)
        requires
            old(self).wf(),
        ensures
            final(self).wf(),
            final(self).tool() == old(self).tool(),
            final(self).data_dir_view() == old(self).data_dir_view(),
            opt_seq(r) == loaded_entry(opt_str(content)),
            final(self).stores() == dirs_after_load(old(self).stores(), opt_str(content)),
    {
        match content {
            Some(text) => {
                proof {
                    lemma_split_on_len(text@, '\n');
                }
                let lines = split_lines(text);
                let entry = lines[0].clone();
                if lines.len() >= 2 {
                    self.rotate_to(lines[1].as_str());
                }
                Some(entry)
            },
            None => None,
        }
    }

    /// The text that records the choice of `entry` in the current store:
    /// the entry, a newline, and the store's path.
    pub fn save(&self, entry: &str) -> (r: String)
        requires
            self.wf(),
        ensures
            r@ == saved_content(entry@, self.stores()[0]),
    {
        let mut text = entry.to_owned();
        text.append("\n");
        text.append(self.get_path().as_str());
        text
    }

    /// Makes the store at `store_path` the current one, where it is one of
    /// the stores.
    pub fn rotate_to(&mut self, store_path: &str)
        requires
            old(self).wf(),
        ensures
            final(self).wf(),
            final(self).tool() == old(self).tool(),
            final(self).data_dir_view() == old(self).data_dir_view(),
            final(self).stores() == rotated_to(old(self).stores(), store_path@),
    {
        let ghost dirs = self.stores();
        let mut i: usize = 0;
        while i < self.paths.store_dirs.len() && !str_eq(self.paths.store_dirs[i].as_str(), store_path)
            invariant
                dirs == views(self.paths.store_dirs@),
                i <= dirs.len(),
                forall|j: int| 0 <= j < i ==> dirs[j] != store_path@,
            decreases self.paths.store_dirs.len() - i,
        {
            i += 1;
        }
        if i < self.paths.store_dirs.len() {
            assert(is_first_index(dirs, store_path@, i as int));
            assert(forall|j: int| is_first_index(dirs, store_path@, j) ==> j == i);
            let mut tail = self.paths.store_dirs.split_off(i);
            tail.append(&mut self.paths.store_dirs);
            self.paths.store_dirs = tail;
            assert(views(self.paths.store_dirs@) =~= dirs.skip(i as int) + dirs.take(i as int));
        } else {
            assert(forall|j: int| !is_first_index(dirs, store_path@, j));
        }
    }
}

/// The view of an optional string slice.
pub open spec fn opt_str(o: Option<&str>) -> Option<Seq<char>> {
    match o {
        Some(s) => Some(s@),
        None => None,
    }
}

/// The view of an optional string.
pub open spec fn opt_seq(o: Option<String>) -> Option<Seq<char>> {
    match o {
        Some(s) => Some(s@),
        None => None,
    }
}

/// Reading back what saving wrote gives the entry that was saved and leaves
/// the stores as they were, for an entry name and a store path that hold no
/// newline.
pub proof fn lemma_load_after_save(dirs: Seq<Seq<char>>, entry: Seq<char>)
    requires
        dirs.len() > 0,
        !entry.contains('\n'),
        !dirs[0].contains('\n'),
    ensures
        loaded_entry(Some(saved_content(entry, dirs[0]))) == Some(entry),
        dirs_after_load(dirs, Some(saved_content(entry, dirs[0]))) == dirs,
{
    reveal_strlit("\n");
    assert("\n"@ =~= seq!['\n']);
    lemma_split_on_concat(entry, dirs[0], '\n');
    lemma_split_on_no_sep(dirs[0], '\n');
    let ls = lines_of(saved_content(entry, dirs[0]));
    assert(ls =~= seq![entry, dirs[0]]);
    assert(is_first_index(dirs, dirs[0], 0));
    assert(forall|j: int| is_first_index(dirs, dirs[0], j) ==> j == 0);
    assert(dirs.skip(0) + dirs.take(0) =~= dirs);
}

/// Choosing a store keeps the same stores: the list after is a rotation of
/// the list before, with the chosen store first where it was present.
pub proof fn lemma_rotation_keeps_stores(dirs: Seq<Seq<char>>, p: Seq<char>)
    ensures
        rotated_to(dirs, p).len() == dirs.len(),
        rotated_to(dirs, p).to_multiset() == dirs.to_multiset(),
        dirs.contains(p) ==> rotated_to(dirs, p)[0] == p,
{
    if exists|i: int| is_first_index(dirs, p, i) {
        let i = choose|i: int| is_first_index(dirs, p, i);
        vstd::seq_lib::lemma_multiset_commutative(dirs.skip(i), dirs.take(i));
        vstd::seq_lib::lemma_multiset_commutative(dirs.take(i), dirs.skip(i));
        assert(dirs.take(i) + dirs.skip(i) =~= dirs);
    } else if dirs.contains(p) {
        let k = choose|k: int| 0 <= k < dirs.len() && dirs[k] == p;
        lemma_first_index_exists(dirs, p, k);
    }
}

proof fn lemma_first_index_exists(dirs: Seq<Seq<char>>, p: Seq<char>, k: int)
    requires
        0 <= k < dirs.len(),
        dirs[k] == p,
    ensures
        exists|i: int| is_first_index(dirs, p, i),
    decreases k,
{
    if exists|j: int| 0 <= j < k && dirs[j] == p {
        let j = choose|j: int| 0 <= j < k && dirs[j] == p;
        lemma_first_index_exists(dirs, p, j);
    } else {
        assert(is_first_index(dirs, p, k));
    }
}

} // verus!

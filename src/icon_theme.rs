//! Icon themes after the freedesktop.org icon theme layout, and the lookup
//! of an icon by name through a theme, its parents and the default theme.
use crate::runner::{split_by, split_on};
use vstd::prelude::*;

verus! {

/// The theme that every lookup falls back to.
pub const DEFAULT_THEME: &'static str = "hicolor";

/// Why a theme or one of its directories could not be read.
#[derive(Debug)]
pub enum CreateError {
    MissingProp { path: String, name: String },
    MissingIndexTheme { path: String },
    InvalidPropVal { path: String, name: String, value: String },
    MissingDirSection { path: String, name: String },
    MissingDirProp { path: String, name: String, prop_name: String },
    MissingExt,
}

/// The kind of size matching a directory offers.
#[derive(Debug, PartialEq, Eq, Clone, Copy)]
pub enum DirectoryType {
    Fixed,
    Scalable,
    Threshold,
}

/// One directory of a theme: where it lies and the icons in it, each as
/// file stem and extension.
#[derive(Debug)]
pub struct Directory {
    pub path: String,
    pub icons: Vec<(String, String)>,
    pub size: u32,
    pub scale: u32,
    pub context: Option<String>,
    pub type_: DirectoryType,
    pub max_size: u32,
    pub min_size: u32,
    pub threshold: u32,
}

/// One theme: its name (the name of its directory), what its index file
/// says, and its directories.
#[derive(Debug)]
pub struct IconTheme {
    pub name: String,
    pub display_name: String,
    pub comment: String,
    pub inherits: Vec<String>,
    pub directories: Vec<Directory>,
    pub scaled_directories: Vec<Directory>,
    pub hidden: bool,
    pub example: Option<String>,
}

/// The themes known to the system.
#[derive(Debug)]
pub struct IconCache {
    pub themes: Vec<IconTheme>,
}

/// The value of the digits `d`, read in base ten.
pub open spec fn digits_value(d: Seq<char>) -> nat
    decreases d.len(),
{
    if d.len() == 0 {
        0
    } else {
        (digits_value(d.drop_last()) * 10 + (d.last() as int - '0' as int)) as nat
    }
}

/// What `u32`'s `from_str` gives: an optional `+`, then one or more ASCII
/// digits whose value fits.
pub open spec fn decimal_u32(s: Seq<char>) -> Option<u32> {
    let d = if s.len() > 0 && s[0] == '+' {
        s.skip(1)
    } else {
        s
    };
    if d.len() > 0 && (forall|i: int| 0 <= i < d.len() ==> '0' <= #[trigger] d[i] <= '9')
        && digits_value(d) <= u32::MAX {
        Some(digits_value(d) as u32)
    } else {
        None
    }
}

/// Relies on `u32`'s `FromStr`: an optional `+` and decimal digits, with no
/// surrounding space, and a value that fits.
#[verifier::external_body]
fn parse_u32(text: &str) -> (r: Option<u32>)
    ensures
        r == decimal_u32(text@),
{
    text.parse::<u32>().ok()
}

/// A value that a property of an index file can hold.
pub trait PropValue: Sized {
    /// The value that `text` stands for, if any.
    spec fn from_text(text: Seq<char>) -> Option<Self>;

    fn parse_prop(text: &str) -> (r: Option<Self>)
        ensures
            r == Self::from_text(text@),
    ;
}

impl PropValue for u32 {
    open spec fn from_text(text: Seq<char>) -> Option<u32> {
        decimal_u32(text)
    }

    fn parse_prop(text: &str) -> (r: Option<u32>) {
        parse_u32(text)
    }
}

impl PropValue for bool {
    open spec fn from_text(text: Seq<char>) -> Option<bool> {
        if text == "true"@ {
            Some(true)
        } else if text == "false"@ {
            Some(false)
        } else {
            None
        }
    }

    fn parse_prop(text: &str) -> (r: Option<bool>) {
        let t = text.to_owned();
        if t == "true".to_owned() {
            Some(true)
        } else if t == "false".to_owned() {
            Some(false)
        } else {
            None
        }
    }
}

impl PropValue for DirectoryType {
    open spec fn from_text(text: Seq<char>) -> Option<DirectoryType> {
        if text == "Fixed"@ {
            Some(DirectoryType::Fixed)
        } else if text == "Scalable"@ {
            Some(DirectoryType::Scalable)
        } else if text == "Threshold"@ {
            Some(DirectoryType::Threshold)
        } else {
            None
        }
    }

    fn parse_prop(text: &str) -> (r: Option<DirectoryType>) {
        match DirectoryType::from_str(text) {
            Ok(t) => Some(t),
            Err(()) => None,
        }
    }
}

impl DirectoryType {
    /// The directory type named `s`.
    pub fn from_str(s: &str) -> (r: Result<DirectoryType, ()>)
        ensures
            match <DirectoryType as PropValue>::from_text(s@) {
                Some(t) => r == Ok::<DirectoryType, ()>(t),
                None => r is Err,
            },
    {
        let t = s.to_owned();
        if t == "Fixed".to_owned() {
            Ok(DirectoryType::Fixed)
        } else if t == "Scalable".to_owned() {
            Ok(DirectoryType::Scalable)
        } else if t == "Threshold".to_owned() {
            Ok(DirectoryType::Threshold)
        } else {
            Err(())
        }
    }
}

/// The value of the first property named `key` in `map`.
pub open spec fn prop_value(map: Seq<(String, String)>, key: Seq<char>) -> Option<Seq<char>>
    decreases map.len(),
{
    if map.len() == 0 {
        None
    } else {
        match prop_value(map.drop_last(), key) {
            Some(v) => Some(v),
            None => if map.last().0@ == key {
                Some(map.last().1@)
            } else {
                None
            },
        }
    }
}

proof fn lemma_prop_value_prefix(map: Seq<(String, String)>, key: Seq<char>, k: int)
    requires
        0 <= k <= map.len(),
        prop_value(map.take(k), key) is Some,
    ensures
        prop_value(map, key) == prop_value(map.take(k), key),
    decreases map.len() - k,
{
    if k < map.len() {
        assert(map.take(k + 1).drop_last() =~= map.take(k));
        lemma_prop_value_prefix(map, key, k + 1);
    } else {
        assert(map.take(k) =~= map);
    }
}

/// Read the optional property `name` of a section: `default` where it is
/// absent, its value where that parses, else an error naming the value.
pub fn parse_optional_prop<T: PropValue>(
    name: &str,
    path: String,
    map: &Vec<(String, String)>,
    default: T,
) -> (r: Result<T, CreateError>)
    ensures
        match prop_value(map@, name@) {
            None => r == Ok::<T, CreateError>(default),
            Some(text) => match T::from_text(text) {
                Some(v) => r == Ok::<T, CreateError>(v),
                None => r matches Err(CreateError::InvalidPropVal { path: p, name: n, value: v })
                    && p@ == path@ && n@ == name@ && v@ == text,
            },
        },
{
    let key = name.to_owned();
    let mut i: usize = 0;
    while i < map.len()
        invariant
            i <= map.len(),
            key@ == name@,
            prop_value(map@.take(i as int), name@) is None,
        decreases map.len() - i,
    {
        proof {
            assert(map@.take(i + 1).drop_last() =~= map@.take(i as int));
        }
        let (k, text) = &map[i];
        if *k == key {
            proof {
                assert(map@.take(i + 1).last() == map@[i as int]);
                lemma_prop_value_prefix(map@, name@, i + 1);
            }
            return match T::parse_prop(text.as_str()) {
                Some(v) => Ok(v),
                None => Err(
                    CreateError::InvalidPropVal { path, name: key, value: text.clone() },
                ),
            };
        }
        i = i + 1;
    }
    proof {
        assert(map@.take(map.len() as int) =~= map@);
    }
    Ok(default)
}

/// The value of the optional property `key`: `default` where it is absent,
/// else what its text stands for.
pub open spec fn optional_prop<T: PropValue>(map: Seq<(String, String)>, key: Seq<char>, default: T) -> Option<T> {
    match prop_value(map, key) {
        None => Some(default),
        Some(t) => T::from_text(t),
    }
}

/// `name` under the directory `base`.
pub open spec fn join_path(base: Seq<char>, name: Seq<char>) -> Seq<char> {
    base + seq!['/'] + name
}

/// The size that a directory section gives, when it gives a valid one.
pub open spec fn section_size(sec: Seq<(String, String)>) -> Option<u32> {
    match prop_value(sec, "Size"@) {
        Some(t) => decimal_u32(t),
        None => None,
    }
}

/// Every property of a directory section that is read holds a valid value.
pub open spec fn section_valid(sec: Seq<(String, String)>) -> bool {
    match section_size(sec) {
        None => false,
        Some(size) => {
            &&& optional_prop(sec, "Scale"@, 1u32) is Some
            &&& optional_prop(sec, "MaxSize"@, size) is Some
            &&& optional_prop(sec, "MinSize"@, size) is Some
            &&& optional_prop(sec, "Threshold"@, 2u32) is Some
            &&& optional_prop(sec, "Type"@, DirectoryType::Threshold) is Some
        },
    }
}

/// The value of the first property named `key`, if any.
pub fn get_prop(map: &Vec<(String, String)>, key: &str) -> (r: Option<String>)
    ensures
        opt_view(r) == prop_value(map@, key@),
{
    let k = key.to_owned();
    let mut i: usize = 0;
    while i < map.len()
        invariant
            i <= map.len(),
            k@ == key@,
            prop_value(map@.take(i as int), key@) is None,
        decreases map.len() - i,
    {
        proof {
            assert(map@.take(i + 1).drop_last() =~= map@.take(i as int));
        }
        if map[i].0 == k {
            proof {
                assert(map@.take(i + 1).last() == map@[i as int]);
                lemma_prop_value_prefix(map@, key@, i + 1);
            }
            return Some(map[i].1.clone());
        }
        i = i + 1;
    }
    proof {
        assert(map@.take(map.len() as int) =~= map@);
    }
    None
}

impl Directory {
    /// A directory named `name` of the theme at `base_path`, as its section
    /// of the theme's index describes it; `section` is `None` where the index
    /// has no such section. The icons are left empty.
    pub fn from_section(name: &str, base_path: &str, section: Option<&Vec<(String, String)>>) -> (r:
        Result<Directory, CreateError>)
        ensures
            section is None ==> (r matches Err(CreateError::MissingDirSection { path: p, name: n })
                && p@ == base_path@ && n@ == name@),
            section matches Some(sec) && prop_value(sec@, "Size"@) is None ==> (r matches Err(
                CreateError::MissingDirProp { path: p, name: n, prop_name: q },
            ) && p@ == base_path@ && n@ == name@ && q@ == "Size"@),
            section matches Some(sec) && prop_value(sec@, "Size"@) is Some && !section_valid(
                sec@,
            ) ==> r matches Err(CreateError::InvalidPropVal { .. }),
            section is Some && section_valid(section->Some_0@) ==> (r matches Ok(d) && {
                let sec = section->Some_0@;
                let size = section_size(sec)->Some_0;
                &&& d.path@ == join_path(base_path@, name@)
                &&& d.icons@.len() == 0
                &&& d.size == size
                &&& Some(d.scale) == optional_prop(sec, "Scale"@, 1u32)
                &&& Some(d.max_size) == optional_prop(sec, "MaxSize"@, size)
                &&& Some(d.min_size) == optional_prop(sec, "MinSize"@, size)
                &&& Some(d.threshold) == optional_prop(sec, "Threshold"@, 2u32)
                &&& Some(d.type_) == optional_prop(sec, "Type"@, DirectoryType::Threshold)
                &&& opt_view(d.context) == prop_value(sec, "Context"@)
            }),
    {
        let sec = match section {
            Some(sec) => sec,
            None => {
                return Err(
                    CreateError::MissingDirSection { path: base_path.to_owned(), name: name.to_owned() },
                );
            },
        };
        let size_text = match get_prop(sec, "Size") {
            Some(t) => t,
            None => {
                return Err(
                    CreateError::MissingDirProp {
                        path: base_path.to_owned(),
                        name: name.to_owned(),
                        prop_name: "Size".to_owned(),
                    },
                );
            },
        };
        let size = match parse_u32(size_text.as_str()) {
            Some(v) => v,
            None => {
                return Err(
                    CreateError::InvalidPropVal {
                        path: base_path.to_owned(),
                        name: "Size".to_owned(),
                        value: size_text,
                    },
                );
            },
        };
        let scale = match parse_optional_prop("Scale", base_path.to_owned(), sec, 1u32) {
            Ok(v) => v,
            Err(e) => return Err(e),
        };
        let max_size = match parse_optional_prop("MaxSize", base_path.to_owned(), sec, size) {
            Ok(v) => v,
            Err(e) => return Err(e),
        };
        let min_size = match parse_optional_prop("MinSize", base_path.to_owned(), sec, size) {
            Ok(v) => v,
            Err(e) => return Err(e),
        };
        let threshold = match parse_optional_prop("Threshold", base_path.to_owned(), sec, 2u32) {
            Ok(v) => v,
            Err(e) => return Err(e),
        };
        let type_ = match parse_optional_prop(
            "Type",
            base_path.to_owned(),
            sec,
            DirectoryType::Threshold,
        ) {
            Ok(v) => v,
            Err(e) => return Err(e),
        };
        let context = get_prop(sec, "Context");
        let mut path = base_path.to_owned();
        path.append("/");
        path.append(name);
        proof {
            reveal_strlit("/");
            assert(path@ =~= join_path(base_path@, name@));
        }
        Ok(
            Directory {
                path,
                icons: Vec::new(),
                size,
                scale,
                context,
                type_,
                max_size,
                min_size,
                threshold,
            },
        )
    }
}

/// `v` holds the texts `s`, in order.
pub open spec fn texts_are(v: Seq<String>, s: Seq<Seq<char>>) -> bool {
    v.len() == s.len() && forall|i: int| 0 <= i < v.len() ==> #[trigger] v[i]@ == s[i]
}

/// The comma-separated list that property `key` holds, if it is present.
pub fn list_prop(section: &Vec<(String, String)>, key: &str) -> (r: Option<Vec<String>>)
    ensures
        match prop_value(section@, key@) {
            None => r is None,
            Some(t) => r matches Some(v) && texts_are(v@, split_by(t, ',')),
        },
{
    match get_prop(section, key) {
        Some(t) => Some(split_on(t.as_str(), ',')),
        None => None,
    }
}

impl IconTheme {
    /// A theme named `name` at `path`, as the `[Icon Theme]` section of its
    /// index describes it (`None` where the index has no such section), with
    /// the directories given.
    pub fn from_section(
        name: String,
        path: &str,
        section: Option<&Vec<(String, String)>>,
        directories: Vec<Directory>,
        scaled_directories: Vec<Directory>,
    ) -> (r: Result<IconTheme, CreateError>)
        ensures
            section is None ==> (r matches Err(CreateError::MissingIndexTheme { path: p })
                && p@ == path@),
            section is Some ==> {
                let sec = section->Some_0@;
                &&& prop_value(sec, "Name"@) is None ==> (r matches Err(
                    CreateError::MissingProp { path: p, name: n },
                ) && p@ == path@ && n@ == "Name"@)
                &&& prop_value(sec, "Name"@) is Some && prop_value(sec, "Comment"@) is None ==> (
                r matches Err(CreateError::MissingProp { path: p, name: n }) && p@ == path@ && n@
                    == "Comment"@)
                &&& prop_value(sec, "Name"@) is Some && prop_value(sec, "Comment"@) is Some
                    && optional_prop(sec, "Hidden"@, false) is None ==> (r matches Err(
                    CreateError::InvalidPropVal { path: p, name: n, value: v },
                ) && p@ == path@ && n@ == "Hidden"@)
                &&& prop_value(sec, "Name"@) is Some && prop_value(sec, "Comment"@) is Some
                    && optional_prop(sec, "Hidden"@, false) is Some && prop_value(
                    sec,
                    "Directories"@,
                ) is None ==> (r matches Err(CreateError::MissingProp { path: p, name: n })
                    && p@ == path@ && n@ == "Directories"@)
                &&& prop_value(sec, "Name"@) is Some && prop_value(sec, "Comment"@) is Some
                    && optional_prop(sec, "Hidden"@, false) is Some && prop_value(
                    sec,
                    "Directories"@,
                ) is Some ==> (r matches Ok(t) && {
                    &&& t.name@ == name@
                    &&& Some(t.display_name@) == prop_value(sec, "Name"@)
                    &&& Some(t.comment@) == prop_value(sec, "Comment"@)
                    &&& match prop_value(sec, "Inherits"@) {
                        Some(v) => texts_are(t.inherits@, split_by(v, ',')),
                        None => t.inherits@.len() == 0,
                    }
                    &&& Some(t.hidden) == optional_prop(sec, "Hidden"@, false)
                    &&& opt_view(t.example) == prop_value(sec, "Hidden"@)
                    &&& t.directories@ == directories@
                    &&& t.scaled_directories@ == scaled_directories@
                })
            },
    {
        let sec = match section {
            Some(sec) => sec,
            None => return Err(CreateError::MissingIndexTheme { path: path.to_owned() }),
        };
        let display_name = match get_prop(sec, "Name") {
            Some(v) => v,
            None => {
                return Err(
                    CreateError::MissingProp { path: path.to_owned(), name: "Name".to_owned() },
                )
            },
        };
        let comment = match get_prop(sec, "Comment") {
            Some(v) => v,
            None => {
                return Err(
                    CreateError::MissingProp { path: path.to_owned(), name: "Comment".to_owned() },
                )
            },
        };
        let inherits = match list_prop(sec, "Inherits") {
            Some(v) => v,
            None => Vec::new(),
        };
        let example = get_prop(sec, "Hidden");
        let hidden = match parse_optional_prop("Hidden", path.to_owned(), sec, false) {
            Ok(v) => v,
            Err(e) => return Err(e),
        };
        if get_prop(sec, "Directories").is_none() {
            return Err(
                CreateError::MissingProp { path: path.to_owned(), name: "Directories".to_owned() },
            );
        }
        Ok(
            IconTheme {
                name,
                display_name,
                comment,
                inherits,
                directories,
                scaled_directories,
                hidden,
                example,
            },
        )
    }
}

impl Default for Directory {
    fn default() -> (r: Directory)
        ensures
            r.path@.len() == 0,
            r.icons@.len() == 0,
            r.size == 0,
            r.scale == 1,
            r.context is None,
            r.type_ == DirectoryType::Threshold,
            r.max_size == 0,
            r.min_size == 0,
            r.threshold == 2,
    {
        Directory {
            path: String::new(),
            icons: Vec::new(),
            size: 0,
            scale: 1,
            context: None,
            type_: DirectoryType::Threshold,
            max_size: 0,
            min_size: 0,
            threshold: 2,
        }
    }
}

/// The file of icon `(stem, ext)` in the directory at `dir`.
pub open spec fn icon_path(dir: Seq<char>, stem: Seq<char>, ext: Seq<char>) -> Seq<char> {
    dir + seq!['/'] + stem + seq!['.'] + ext
}

/// The position of the first theme named `name`.
pub open spec fn theme_index(themes: Seq<IconTheme>, name: Seq<char>) -> Option<int>
    decreases themes.len(),
{
    if themes.len() == 0 {
        None
    } else {
        match theme_index(themes.drop_last(), name) {
            Some(i) => Some(i),
            None => if themes.last().name@ == name {
                Some(themes.len() - 1)
            } else {
                None
            },
        }
    }
}

/// The first icon named `icon` among `icons`, as a file in `dir`.
pub open spec fn icon_in_dir(dir: Seq<char>, icons: Seq<(String, String)>, icon: Seq<char>) -> Option<
    Seq<char>,
>
    decreases icons.len(),
{
    if icons.len() == 0 {
        None
    } else {
        match icon_in_dir(dir, icons.drop_last(), icon) {
            Some(p) => Some(p),
            None => if icons.last().0@ == icon {
                Some(icon_path(dir, icons.last().0@, icons.last().1@))
            } else {
                None
            },
        }
    }
}

/// The first icon named `icon` in the directories `dirs`, in order.
pub open spec fn icon_in_dirs(dirs: Seq<Directory>, icon: Seq<char>) -> Option<Seq<char>>
    decreases dirs.len(),
{
    if dirs.len() == 0 {
        None
    } else {
        match icon_in_dirs(dirs.drop_last(), icon) {
            Some(p) => Some(p),
            None => icon_in_dir(dirs.last().path@, dirs.last().icons@, icon),
        }
    }
}

/// Icon `icon` looked up in theme `name`: in its own directories, else, for
/// a theme other than the default, in each parent in turn and then in the
/// default theme. `depth` bounds the chain of themes followed.
pub open spec fn lookup(themes: Seq<IconTheme>, name: Seq<char>, icon: Seq<char>, depth: nat) -> Option<
    Seq<char>,
>
    decreases depth, 0nat,
{
    if depth == 0 {
        None
    } else {
        match theme_index(themes, name) {
            None => None,
            Some(t) => match icon_in_dirs(themes[t].directories@, icon) {
                Some(p) => Some(p),
                None => if name == DEFAULT_THEME@ {
                    None
                } else {
                    match lookup_parents(themes, themes[t].inherits@, icon, (depth - 1) as nat) {
                        Some(p) => Some(p),
                        None => lookup(themes, DEFAULT_THEME@, icon, (depth - 1) as nat),
                    }
                },
            },
        }
    }
}

/// The first of `parents` in which `icon` is found.
pub open spec fn lookup_parents(
    themes: Seq<IconTheme>,
    parents: Seq<String>,
    icon: Seq<char>,
    depth: nat,
) -> Option<Seq<char>>
    decreases depth, parents.len(),
{
    if parents.len() == 0 {
        None
    } else {
        match lookup_parents(themes, parents.drop_last(), icon, depth) {
            Some(p) => Some(p),
            None => lookup(themes, parents.last()@, icon, depth),
        }
    }
}

/// The text of an optional string.
pub open spec fn opt_view(s: Option<String>) -> Option<Seq<char>> {
    match s {
        Some(x) => Some(x@),
        None => None,
    }
}

fn find_theme(themes: &Vec<IconTheme>, name: &String) -> (r: Option<usize>)
    ensures
        match r {
            Some(i) => i < themes.len() && theme_index(themes@, name@) == Some(i as int),
            None => theme_index(themes@, name@) is None,
        },
{
    let mut i: usize = 0;
    while i < themes.len()
        invariant
            i <= themes.len(),
            theme_index(themes@.take(i as int), name@) is None,
        decreases themes.len() - i,
    {
        proof {
            assert(themes@.take(i + 1).drop_last() =~= themes@.take(i as int));
        }
        if themes[i].name == *name {
            proof {
                lemma_theme_index_prefix(themes@, name@, i + 1);
            }
            return Some(i);
        }
        i = i + 1;
    }
    proof {
        assert(themes@.take(themes.len() as int) =~= themes@);
    }
    None
}

proof fn lemma_theme_index_prefix(themes: Seq<IconTheme>, name: Seq<char>, k: int)
    requires
        0 <= k <= themes.len(),
        theme_index(themes.take(k), name) is Some,
    ensures
        theme_index(themes, name) == theme_index(themes.take(k), name),
    decreases themes.len() - k,
{
    if k < themes.len() {
        assert(themes.take(k + 1).drop_last() =~= themes.take(k));
        lemma_theme_index_prefix(themes, name, k + 1);
    } else {
        assert(themes.take(k) =~= themes);
    }
}

proof fn lemma_icon_in_dir_prefix(dir: Seq<char>, icons: Seq<(String, String)>, icon: Seq<char>, k: int)
    requires
        0 <= k <= icons.len(),
        icon_in_dir(dir, icons.take(k), icon) is Some,
    ensures
        icon_in_dir(dir, icons, icon) == icon_in_dir(dir, icons.take(k), icon),
    decreases icons.len() - k,
{
    if k < icons.len() {
        assert(icons.take(k + 1).drop_last() =~= icons.take(k));
        lemma_icon_in_dir_prefix(dir, icons, icon, k + 1);
    } else {
        assert(icons.take(k) =~= icons);
    }
}

proof fn lemma_icon_in_dirs_prefix(dirs: Seq<Directory>, icon: Seq<char>, k: int)
    requires
        0 <= k <= dirs.len(),
        icon_in_dirs(dirs.take(k), icon) is Some,
    ensures
        icon_in_dirs(dirs, icon) == icon_in_dirs(dirs.take(k), icon),
    decreases dirs.len() - k,
{
    if k < dirs.len() {
        assert(dirs.take(k + 1).drop_last() =~= dirs.take(k));
        lemma_icon_in_dirs_prefix(dirs, icon, k + 1);
    } else {
        assert(dirs.take(k) =~= dirs);
    }
}

proof fn lemma_lookup_parents_prefix(
    themes: Seq<IconTheme>,
    parents: Seq<String>,
    icon: Seq<char>,
    depth: nat,
    k: int,
)
    requires
        0 <= k <= parents.len(),
        lookup_parents(themes, parents.take(k), icon, depth) is Some,
    ensures
        lookup_parents(themes, parents, icon, depth) == lookup_parents(
            themes,
            parents.take(k),
            icon,
            depth,
        ),
    decreases parents.len() - k,
{
    if k < parents.len() {
        assert(parents.take(k + 1).drop_last() =~= parents.take(k));
        lemma_lookup_parents_prefix(themes, parents, icon, depth, k + 1);
    } else {
        assert(parents.take(k) =~= parents);
    }
}

/// The first icon named `icon` in the directory `d`, as a file path.
fn find_in_dir(d: &Directory, icon: &String) -> (r: Option<String>)
    ensures
        opt_view(r) == icon_in_dir(d.path@, d.icons@, icon@),
{
    let mut k: usize = 0;
    while k < d.icons.len()
        invariant
            k <= d.icons.len(),
            icon_in_dir(d.path@, d.icons@.take(k as int), icon@) is None,
        decreases d.icons.len() - k,
    {
        proof {
            assert(d.icons@.take(k + 1).drop_last() =~= d.icons@.take(k as int));
        }
        let (stem, ext) = &d.icons[k];
        if *stem == *icon {
            let mut p = d.path.clone();
            p.append("/");
            p.append(stem.as_str());
            p.append(".");
            p.append(ext.as_str());
            proof {
                reveal_strlit("/");
                reveal_strlit(".");
                assert(p@ =~= icon_path(d.path@, stem@, ext@));
                lemma_icon_in_dir_prefix(d.path@, d.icons@, icon@, k + 1);
            }
            return Some(p);
        }
        k = k + 1;
    }
    proof {
        assert(d.icons@.take(d.icons.len() as int) =~= d.icons@);
    }
    None
}

impl IconCache {
    /// Look up `icon_name` in theme `theme_name`: in the theme's own
    /// directories, else in each parent theme in turn, else in the default
    /// theme. Each step follows one theme further; a chain of inheritance
    /// longer than the number of known themes is a cycle and yields `None`.
    /// `size` is not taken into account.
    pub fn get_icon(&self, theme_name: &str, icon_name: &str, size: u32) -> (r: Option<String>)
        requires
            self.themes.len() < usize::MAX,
        ensures
            opt_view(r) == lookup(
                self.themes@,
                theme_name@,
                icon_name@,
                (self.themes.len() + 1) as nat,
            ),
    {
        let theme = theme_name.to_owned();
        let icon = icon_name.to_owned();
        self.lookup_within(&theme, &icon, self.themes.len() + 1)
    }

    fn lookup_within(&self, theme_name: &String, icon: &String, depth: usize) -> (r: Option<String>)
        ensures
            opt_view(r) == lookup(self.themes@, theme_name@, icon@, depth as nat),
        decreases depth,
    {
        if depth == 0 {
            return None;
        }
        let t = match find_theme(&self.themes, theme_name) {
            Some(t) => t,
            None => return None,
        };
        let theme = &self.themes[t];
        let mut j: usize = 0;
        while j < theme.directories.len()
            invariant
                j <= theme.directories.len(),
                depth > 0,
                t < self.themes.len(),
                theme_index(self.themes@, theme_name@) == Some(t as int),
                self.themes@[t as int] == *theme,
                icon_in_dirs(theme.directories@.take(j as int), icon@) is None,
            decreases theme.directories.len() - j,
        {
            proof {
                assert(theme.directories@.take(j + 1).drop_last() =~= theme.directories@.take(
                    j as int,
                ));
            }
            let found = find_in_dir(&theme.directories[j], icon);
            if found.is_some() {
                proof {
                    assert(theme.directories@.take(j + 1).last() == theme.directories@[j as int]);
                    lemma_icon_in_dirs_prefix(theme.directories@, icon@, j + 1);
                    assert(icon_in_dirs(theme.directories@, icon@) == opt_view(found));
                    assert(self.themes@[t as int] == *theme);
                    assert(theme_index(self.themes@, theme_name@) == Some(t as int));
                    assert(lookup(self.themes@, theme_name@, icon@, depth as nat) == opt_view(found));
                }
                return found;
            }
            j = j + 1;
        }
        proof {
            assert(theme.directories@.take(theme.directories.len() as int) =~= theme.directories@);
        }
        let default_name = DEFAULT_THEME.to_owned();
        if *theme_name == default_name {
            return None;
        }
        let mut k: usize = 0;
        while k < theme.inherits.len()
            invariant
                k <= theme.inherits.len(),
                depth > 0,
                t < self.themes.len(),
                theme_index(self.themes@, theme_name@) == Some(t as int),
                self.themes@[t as int] == *theme,
                icon_in_dirs(theme.directories@, icon@) is None,
                theme_name@ != DEFAULT_THEME@,
                lookup_parents(
                    self.themes@,
                    theme.inherits@.take(k as int),
                    icon@,
                    (depth - 1) as nat,
                ) is None,
            decreases theme.inherits.len() - k,
        {
            proof {
                assert(theme.inherits@.take(k + 1).drop_last() =~= theme.inherits@.take(k as int));
            }
            let found = self.lookup_within(&theme.inherits[k], icon, depth - 1);
            if found.is_some() {
                proof {
                    assert(theme.inherits@.take(k + 1).last() == theme.inherits@[k as int]);
                    lemma_lookup_parents_prefix(
                        self.themes@,
                        theme.inherits@,
                        icon@,
                        (depth - 1) as nat,
                        k + 1,
                    );
                    assert(lookup_parents(self.themes@, theme.inherits@, icon@, (depth - 1) as nat) == opt_view(found));
                    assert(self.themes@[t as int] == *theme);
                    assert(icon_in_dirs(theme.directories@, icon@) is None);
                    assert(lookup(self.themes@, theme_name@, icon@, depth as nat) == opt_view(found));
                }
                return found;
            }
            k = k + 1;
        }
        proof {
            assert(theme.inherits@.take(theme.inherits.len() as int) =~= theme.inherits@);
        }
        self.lookup_within(&default_name, icon, depth - 1)
    }
}

} // verus!

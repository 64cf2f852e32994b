use vstd::prelude::*;
use fuzzy_matcher::FuzzyMatcher;

verus! {

/// A launchable application, read from a desktop entry: its display
/// name, its command line, and the name of its icon if it has one.
#[derive(Debug, Clone)]
pub struct App {
    pub name: String,
    pub cmd: String,
    pub icon_name: Option<String>,
}

/// The model of an `App`.
pub ghost struct AppV {
    pub name: Seq<char>,
    pub cmd: Seq<char>,
    pub icon_name: Option<Seq<char>>,
}

impl View for App {
    type V = AppV;

    open spec fn view(&self) -> AppV {
        AppV {
            name: self.name@,
            cmd: self.cmd@,
            icon_name: match self.icon_name {
                Some(s) => Some(s@),
                None => None,
            },
        }
    }
}

impl App {
    pub fn new(name: String, cmd: String, icon_name: Option<String>) -> (r: App)
        ensures
            r@.name == name@,
            r@.cmd == cmd@,
            r@.icon_name == (match icon_name {
                Some(t) => Some(t@),
                None => None,
            }),
    {
        App { name, cmd, icon_name }
    }
}

/// The list of installed applications.
#[derive(Debug, Clone, Default)]
pub struct AppList {
    pub apps: Vec<App>,
}

impl AppList {
    /// An empty list; reading the installed desktop entries from disk
    /// and filling the list is the caller's part, since it takes file
    /// access.
    pub fn new() -> (r: AppList)
        ensures
            r.apps@.len() == 0,
    {
        AppList { apps: Vec::new() }
    }
}

/// What the desktop-entry parser found under a section and attribute
/// name in a parsed entry: the entry is opaque here, so its contents
/// are named rather than stated.
pub uninterp spec fn entry_attr_of(
    e: freedesktop_entry_parser::Entry,
    section: Seq<char>,
    attr: Seq<char>,
) -> Option<Seq<char>>;

#[verifier::external_type_specification]
#[verifier::external_body]
pub struct ExEntry(freedesktop_entry_parser::Entry);

/// Whether the desktop-entry grammar accepts these bytes: a pure
/// function of the text, named rather than stated.
pub uninterp spec fn entry_parses(bytes: Seq<u8>) -> bool;

/// The attribute value under a section of the entry parsed from these
/// bytes: again a pure function of the text alone.
pub uninterp spec fn entry_attr_in(
    bytes: Seq<u8>,
    section: Seq<char>,
    attr: Seq<char>,
) -> Option<Seq<char>>;

/// Relies on freedesktop_entry_parser::Entry::parse: parses desktop
/// entry text from bytes, no file access, deterministically in the
/// bytes; the error is dropped. The second clause ties the opaque
/// entry's contents back to the text it was parsed from.
#[verifier::external_body]
pub fn parse_entry_bytes(bytes: Vec<u8>) -> (r: Option<freedesktop_entry_parser::Entry>)
    ensures
        r is Some <==> entry_parses(bytes@),
        r matches Some(e) ==> forall|section: Seq<char>, attr: Seq<char>|
            #[trigger] entry_attr_of(e, section, attr) == entry_attr_in(bytes@, section, attr),
{
    freedesktop_entry_parser::Entry::parse(bytes).ok()
}

/// Relies on freedesktop_entry_parser::Entry::section and
/// AttrSelector::attr: looks the attribute up in the parsed entry, a
/// pure read of the parsed structure.
#[verifier::external_body]
pub fn entry_attr(e: &freedesktop_entry_parser::Entry, section: &str, attr: &str) -> (r: Option<
    String,
>)
    ensures
        match r {
            Some(s) => entry_attr_of(*e, section@, attr@) == Some(s@),
            None => entry_attr_of(*e, section@, attr@) is None,
        },
{
    e.section(section).attr(attr).map(|s| s.to_owned())
}

impl App {
    /// Reads an application from a parsed desktop entry: the `Name` and
    /// `Exec` attributes of the `Desktop Entry` section must both be
    /// present, the icon name may be.
    pub fn from_entry(e: &freedesktop_entry_parser::Entry) -> (r: Option<App>)
        ensures
            r is Some <==> entry_attr_of(*e, "Desktop Entry"@, "Name"@) is Some && entry_attr_of(
                *e,
                "Desktop Entry"@,
                "Exec"@,
            ) is Some,
            r matches Some(app) ==> {
                &&& Some(app@.name) == entry_attr_of(*e, "Desktop Entry"@, "Name"@)
                &&& Some(app@.cmd) == entry_attr_of(*e, "Desktop Entry"@, "Exec"@)
                &&& app@.icon_name == entry_attr_of(*e, "Desktop Entry"@, "Icon"@)
            },
    {
        let name = entry_attr(e, "Desktop Entry", "Name");
        let cmd = entry_attr(e, "Desktop Entry", "Exec");
        let icon_name = entry_attr(e, "Desktop Entry", "Icon");
        match (name, cmd) {
            (Some(name), Some(cmd)) => Some(App { name, cmd, icon_name }),
            _ => None,
        }
    }
}

/// Whether a desktop entry asks not to be shown in menus: its
/// `NoDisplay` attribute is the text `true`.
pub open spec fn spec_hidden(e: freedesktop_entry_parser::Entry) -> bool {
    entry_attr_of(e, "Desktop Entry"@, "NoDisplay"@) == Some("true"@)
}

/// Whether a parsed desktop entry asks not to be shown in menus.
pub fn entry_hidden(e: &freedesktop_entry_parser::Entry) -> (r: bool)
    ensures
        r == spec_hidden(*e),
{
    match entry_attr(e, "Desktop Entry", "NoDisplay") {
        Some(v) => crate::eq::str_eq(v.as_str(), "true"),
        None => false,
    }
}

/// Whether a file name ends in `.desktop`.
pub open spec fn spec_is_desktop_file(name: Seq<char>) -> bool {
    name.len() >= 8 && name.subrange(name.len() - 8, name.len() as int) == ".desktop"@
}

pub fn is_desktop_file(name: &str) -> (r: bool)
    ensures
        r == spec_is_desktop_file(name@),
{
    let len = name.unicode_len();
    if len < 8 {
        return false;
    }
    let suffix = name.substring_char(len - 8, len);
    crate::eq::str_eq(suffix, ".desktop")
}

/// What `shell_words::split` makes of a command line; `None` stands for
/// mismatched quoting.
pub uninterp spec fn shell_split_of(s: Seq<char>) -> Option<Seq<Seq<char>>>;

/// Relies on shell_words::split: POSIX-shell-like word splitting, a
/// pure function of the text; the error is turned into `None`.
#[verifier::external_body]
pub fn shell_split(s: &str) -> (r: Option<Vec<String>>)
    ensures
        match r {
            Some(v) => shell_split_of(s@) == Some(v.deep_view()),
            None => shell_split_of(s@) is None,
        },
{
    shell_words::split(s).ok()
}

/// An argument is dropped when it is a desktop-entry field code such as
/// `%u`.
pub open spec fn keeps_arg(w: Seq<char>) -> bool {
    !(w.len() > 0 && w[0] == '%')
}

/// The kept arguments among `ws[1..i]`.
pub open spec fn kept_args(ws: Seq<Seq<char>>, i: int) -> Seq<Seq<char>>
    decreases i,
{
    if i <= 1 {
        Seq::empty()
    } else {
        kept_args(ws, i - 1) + (if keeps_arg(ws[i - 1]) {
            seq![ws[i - 1]]
        } else {
            Seq::empty()
        })
    }
}

/// The run of leading and trailing double quotes stripped.
pub open spec fn spec_trim_quotes(s: Seq<char>) -> Seq<char>
    decreases s.len(),
{
    if s.len() > 0 && s[0] == '"' {
        spec_trim_quotes(s.drop_first())
    } else if s.len() > 0 && s[s.len() - 1] == '"' {
        spec_trim_quotes(s.drop_last())
    } else {
        s
    }
}

fn trim_quotes(s: &str) -> (r: String)
    ensures
        r@ == spec_trim_quotes(s@),
{
    let len = s.unicode_len();
    let mut lo: usize = 0;
    let mut hi: usize = len;
    proof {
        assert(s@.subrange(0, len as int) =~= s@);
    }
    while lo < hi && s.get_char(lo) == '"'
        invariant
            0 <= lo <= hi <= len,
            len == s@.len(),
            hi == len,
            spec_trim_quotes(s@) == spec_trim_quotes(s@.subrange(lo as int, hi as int)),
        decreases hi - lo,
    {
        proof {
            assert(s@.subrange(lo as int, hi as int).drop_first() =~= s@.subrange(
                lo as int + 1,
                hi as int,
            ));
        }
        lo += 1;
    }
    while lo < hi && s.get_char(hi - 1) == '"'
        invariant
            0 <= lo <= hi <= len,
            len == s@.len(),
            spec_trim_quotes(s@) == spec_trim_quotes(s@.subrange(lo as int, hi as int)),
            lo < hi ==> s@.subrange(lo as int, hi as int)[0] != '"',
        decreases hi - lo,
    {
        proof {
            assert(s@.subrange(lo as int, hi as int).drop_last() =~= s@.subrange(
                lo as int,
                hi as int - 1,
            ));
        }
        hi -= 1;
    }
    let out = s.substring_char(lo, hi);
    proof {
        assert(spec_trim_quotes(s@.subrange(lo as int, hi as int)) == s@.subrange(
            lo as int,
            hi as int,
        ));
    }
    out.to_owned()
}

impl App {
    /// Splits the command line into the program and its arguments,
    /// dropping desktop-entry field codes such as `%u` and the quotes
    /// around the program. `None` when the command line cannot be split
    /// or is empty.
    pub fn launch_plan(&self) -> (r: Option<(String, Vec<String>)>)
        ensures
            match shell_split_of(self@.cmd) {
                Some(ws) => {
                    if ws.len() == 0 {
                        r is None
                    } else {
                        r matches Some((prog, args)) && prog@ == spec_trim_quotes(ws[0])
                            && args.deep_view() == kept_args(ws, ws.len() as int)
                    }
                },
                None => r is None,
            },
    {
        let words = match shell_split(self.cmd.as_str()) {
            Some(w) => w,
            None => {
                return None;
            },
        };
        if words.len() == 0 {
            return None;
        }
        let prog = trim_quotes(words[0].as_str());
        let mut args: Vec<String> = Vec::new();
        let mut i: usize = 1;
        let ghost ws = words.deep_view();
        while i < words.len()
            invariant
                1 <= i <= words.len(),
                ws == words.deep_view(),
                ws.len() == words.len(),
                args.deep_view() == kept_args(ws, i as int),
            decreases words.len() - i,
        {
            let w = &words[i];
            let keep = if w.as_str().unicode_len() > 0 {
                w.as_str().get_char(0) != '%'
            } else {
                true
            };
            assert(keep == keeps_arg(ws[i as int]));
            if keep {
                args.push(w.clone());
            }
            proof {
                assert(args.deep_view() =~= kept_args(ws, i as int + 1));
            }
            i += 1;
        }
        Some((prog, args))
    }
}

/// The list of data directories named in an `XDG_DATA_DIRS`-style
/// value: the value split on `:`, each entry with `/applications`
/// appended.
pub open spec fn spec_xdg_dirs(s: Seq<char>, i: int) -> Seq<Seq<char>>
    decreases s.len() - i via xdg_dirs_decreases
{
    if i < 0 || i > s.len() {
        Seq::empty()
    } else {
        let j = colon_end(s, i);
        if j < s.len() {
            seq![s.subrange(i, j) + "/applications"@] + spec_xdg_dirs(s, j + 1)
        } else {
            seq![s.subrange(i, j) + "/applications"@]
        }
    }
}

#[via_fn]
proof fn xdg_dirs_decreases(s: Seq<char>, i: int) {
    if 0 <= i <= s.len() {
        lemma_colon_end_bounds(s, i);
    }
}

pub proof fn lemma_colon_end_bounds(s: Seq<char>, i: int)
    requires
        0 <= i <= s.len(),
    ensures
        i <= colon_end(s, i) <= s.len(),
    decreases s.len() - i,
{
    if i < s.len() && s[i] != ':' {
        lemma_colon_end_bounds(s, i + 1);
    }
}

/// First position at or after `i` holding a colon, or the end.
pub open spec fn colon_end(s: Seq<char>, i: int) -> int
    decreases s.len() - i,
{
    if 0 <= i < s.len() && s[i] != ':' {
        colon_end(s, i + 1)
    } else {
        i
    }
}

fn colon_end_exec(s: &str, i: usize) -> (r: usize)
    requires
        i <= s@.len(),
    ensures
        r == colon_end(s@, i as int),
        i <= r <= s@.len(),
        r < s@.len() ==> s@[r as int] == ':',
{
    let len = s.unicode_len();
    let mut r = i;
    while r < len && s.get_char(r) != ':'
        invariant
            i <= r <= len,
            len == s@.len(),
            colon_end(s@, i as int) == colon_end(s@, r as int),
        decreases len - r,
    {
        r += 1;
    }
    r
}

impl AppList {
    /// The application directories named by an `XDG_DATA_DIRS` value:
    /// the caller reads the environment and hands the value in.
    pub fn xdg_app_dirs(value: &str) -> (r: Vec<String>)
        ensures
            r.deep_view() == spec_xdg_dirs(value@, 0),
    {
        AppList::xdg_dirs_from(value, 0)
    }

    fn xdg_dirs_from(value: &str, i: usize) -> (r: Vec<String>)
        requires
            i <= value@.len(),
        ensures
            r.deep_view() == spec_xdg_dirs(value@, i as int),
        decreases value@.len() - i,
    {
        let len = value.unicode_len();
        let j = colon_end_exec(value, i);
        proof {
            lemma_colon_end_bounds(value@, i as int);
        }
        let mut entry = value.substring_char(i, j).to_owned();
        proof {
            reveal_strlit("/applications");
        }
        entry.append("/applications");
        if j < len {
            let mut rest = AppList::xdg_dirs_from(value, j + 1);
            rest.insert(0, entry);
            proof {
                assert(rest.deep_view() =~= spec_xdg_dirs(value@, i as int));
            }
            rest
        } else {
            let mut out: Vec<String> = Vec::new();
            out.push(entry);
            proof {
                assert(out.deep_view() =~= spec_xdg_dirs(value@, i as int));
            }
            out
        }
    }
}

/// The icon files worth probing for `icon` at `size` under one data
/// directory, in the order they are tried.
pub open spec fn spec_icon_candidates(icon: Seq<char>, sz: Seq<char>, base: Seq<char>) -> Seq<
    Seq<char>,
> {
    seq![
        base + "/icons/hicolor/"@ + sz + "x"@ + sz + "/apps/"@ + icon + ".png"@,
        base + "/pixmaps/"@ + icon + ".png"@,
        base + "/icons/hicolor/"@ + sz + "x"@ + sz + "/apps/"@ + icon + ".jpg"@,
        base + "/icons/hicolor/scalable/apps/"@ + icon + ".svg"@,
        base + "/icons/gnome/"@ + sz + "x"@ + sz + "/apps/"@ + icon + ".png"@,
        base + "/icons/gnome/"@ + sz + "x"@ + sz + "/devices/"@ + icon + ".png"@,
        base + "/icons/Adwaita/"@ + sz + "x"@ + sz + "/actions/"@ + icon
            + "-symbolic.symbolic.png"@,
        base + "/icons/Adwaita/symbolic/actions/"@ + icon + "-symbolic.svg"@,
    ]
}

impl App {
    /// The icon paths worth probing for this application under the
    /// given data directories (each without its `applications` part),
    /// in the order the presentation layer should test them for
    /// existence. Empty when the application names no icon.
    pub fn icon_candidates(&self, size: u16, base_dirs: &Vec<String>) -> (r: Vec<String>)
        ensures
            match self@.icon_name {
                None => r.deep_view() == Seq::<Seq<char>>::empty(),
                Some(icon) => r.deep_view() == Seq::new(
                    base_dirs@.len() * 8,
                    |k: int|
                        spec_icon_candidates(
                            icon,
                            crate::display::dec_str(size as nat),
                            base_dirs@[k / 8]@,
                        )[k % 8],
                ),
            },
    {
        let icon = match &self.icon_name {
            Some(i) => i,
            None => {
                let empty: Vec<String> = Vec::new();
                return empty;
            },
        };
        let sz = crate::display::dec_u64(size as u64);
        let mut out: Vec<String> = Vec::new();
        let mut d: usize = 0;
        proof {
            reveal_strlit("/icons/hicolor/");
            reveal_strlit("x");
            reveal_strlit("/apps/");
            reveal_strlit(".png");
            reveal_strlit("/pixmaps/");
            reveal_strlit(".jpg");
            reveal_strlit("/icons/hicolor/scalable/apps/");
            reveal_strlit(".svg");
            reveal_strlit("/icons/gnome/");
            reveal_strlit("/devices/");
            reveal_strlit("/icons/Adwaita/");
            reveal_strlit("/actions/");
            reveal_strlit("-symbolic.symbolic.png");
            reveal_strlit("/icons/Adwaita/symbolic/actions/");
            reveal_strlit("-symbolic.svg");
        }
        while d < base_dirs.len()
            invariant
                0 <= d <= base_dirs.len(),
                self@.icon_name == Some(icon@),
                sz@ == crate::display::dec_str(size as nat),
                out.deep_view().len() == d * 8,
                forall|k: int|
                    0 <= k < d * 8 ==> out.deep_view()[k] == spec_icon_candidates(
                        icon@,
                        sz@,
                        base_dirs@[k / 8]@,
                    )[k % 8],
            decreases base_dirs.len() - d,
        {
            let base = &base_dirs[d];
            let cands = icon_candidates_for(icon.as_str(), sz.as_str(), base.as_str());
            let mut j: usize = 0;
            while j < cands.len()
                invariant
                    0 <= j <= cands.len(),
                    0 <= d < base_dirs.len(),
                    cands.deep_view() == spec_icon_candidates(icon@, sz@, base_dirs@[d as int]@),
                    cands.deep_view().len() == 8,
                    self@.icon_name == Some(icon@),
                    sz@ == crate::display::dec_str(size as nat),
                    out.deep_view().len() == d * 8 + j,
                    forall|k: int|
                        0 <= k < d * 8 + j ==> out.deep_view()[k] == spec_icon_candidates(
                            icon@,
                            sz@,
                            base_dirs@[k / 8]@,
                        )[k % 8],
                decreases cands.len() - j,
            {
                let ghost prev = out.deep_view();
                out.push(cands[j].clone());
                proof {
                    assert(out.deep_view() =~= prev.push(cands.deep_view()[j as int]));
                    let kk = d * 8 + j;
                    assert((kk as int) / 8 == d as int && (kk as int) % 8 == j as int) by (nonlinear_arith)
                        requires
                            0 <= j < 8,
                            0 <= d,
                            kk == d * 8 + j,
                    ;
                }
                j += 1;
            }
            d += 1;
        }
        proof {
            assert(out.deep_view() =~= Seq::new(
                base_dirs@.len() * 8,
                |k: int|
                    spec_icon_candidates(
                        icon@,
                        crate::display::dec_str(size as nat),
                        base_dirs@[k / 8]@,
                    )[k % 8],
            ));
        }
        out
    }
}

/// The eight candidate paths under one data directory.
fn icon_candidates_for(icon: &str, sz: &str, base: &str) -> (r: Vec<String>)
    ensures
        r.deep_view() == spec_icon_candidates(icon@, sz@, base@),
        r@.len() == 8,
{
    proof {
        reveal_strlit("/icons/hicolor/");
        reveal_strlit("x");
        reveal_strlit("/apps/");
        reveal_strlit(".png");
        reveal_strlit("/pixmaps/");
        reveal_strlit(".jpg");
        reveal_strlit("/icons/hicolor/scalable/apps/");
        reveal_strlit(".svg");
        reveal_strlit("/icons/gnome/");
        reveal_strlit("/devices/");
        reveal_strlit("/icons/Adwaita/");
        reveal_strlit("/actions/");
        reveal_strlit("-symbolic.symbolic.png");
        reveal_strlit("/icons/Adwaita/symbolic/actions/");
        reveal_strlit("-symbolic.svg");
    }
    let mut out: Vec<String> = Vec::new();
    let mut p1 = base.to_owned();
    p1.append("/icons/hicolor/");
    p1.append(sz);
    p1.append("x");
    p1.append(sz);
    p1.append("/apps/");
    p1.append(icon);
    p1.append(".png");
    out.push(p1);
    let mut p2 = base.to_owned();
    p2.append("/pixmaps/");
    p2.append(icon);
    p2.append(".png");
    out.push(p2);
    let mut p3 = base.to_owned();
    p3.append("/icons/hicolor/");
    p3.append(sz);
    p3.append("x");
    p3.append(sz);
    p3.append("/apps/");
    p3.append(icon);
    p3.append(".jpg");
    out.push(p3);
    let mut p4 = base.to_owned();
    p4.append("/icons/hicolor/scalable/apps/");
    p4.append(icon);
    p4.append(".svg");
    out.push(p4);
    let mut p5 = base.to_owned();
    p5.append("/icons/gnome/");
    p5.append(sz);
    p5.append("x");
    p5.append(sz);
    p5.append("/apps/");
    p5.append(icon);
    p5.append(".png");
    out.push(p5);
    let mut p6 = base.to_owned();
    p6.append("/icons/gnome/");
    p6.append(sz);
    p6.append("x");
    p6.append(sz);
    p6.append("/devices/");
    p6.append(icon);
    p6.append(".png");
    out.push(p6);
    let mut p7 = base.to_owned();
    p7.append("/icons/Adwaita/");
    p7.append(sz);
    p7.append("x");
    p7.append(sz);
    p7.append("/actions/");
    p7.append(icon);
    p7.append("-symbolic.symbolic.png");
    out.push(p7);
    let mut p8 = base.to_owned();
    p8.append("/icons/Adwaita/symbolic/actions/");
    p8.append(icon);
    p8.append("-symbolic.svg");
    out.push(p8);
    proof {
        assert(out.deep_view() =~= spec_icon_candidates(icon@, sz@, base@));
    }
    out
}


#[verifier::external_type_specification]
#[verifier::external_body]
pub struct ExSkimMatcherV2(fuzzy_matcher::skim::SkimMatcherV2);

/// The score the fuzzy matcher gives `pattern` against `choice`, or
/// `None` when they do not match: a pure function of the matcher's
/// configuration and the two texts, named rather than stated.
pub uninterp spec fn fuzzy_of(
    m: fuzzy_matcher::skim::SkimMatcherV2,
    choice: Seq<char>,
    pattern: Seq<char>,
) -> Option<int>;

/// Relies on SkimMatcherV2::default: the matcher in its default
/// configuration.
#[verifier::external_body]
pub fn new_matcher() -> (r: fuzzy_matcher::skim::SkimMatcherV2) {
    fuzzy_matcher::skim::SkimMatcherV2::default()
}

/// Relies on FuzzyMatcher::fuzzy_match for SkimMatcherV2: the score of
/// matching `pattern` against `choice`.
#[verifier::external_body]
pub fn fuzzy_score(
    m: &fuzzy_matcher::skim::SkimMatcherV2,
    choice: &str,
    pattern: &str,
) -> (r: Option<i64>)
    ensures
        match r {
            Some(s) => fuzzy_of(*m, choice@, pattern@) == Some(s as int),
            None => fuzzy_of(*m, choice@, pattern@) is None,
        },
{
    m.fuzzy_match(choice, pattern)
}

/// The score of application `k` against the input.
pub open spec fn match_score(
    m: fuzzy_matcher::skim::SkimMatcherV2,
    apps: Seq<App>,
    input: Seq<char>,
    k: int,
) -> Option<int> {
    fuzzy_of(m, apps[k]@.name, input)
}

/// Candidate order: lower score first, ties by position in the list.
pub open spec fn pair_lt(a: (usize, i64), b: (usize, i64)) -> bool {
    a.1 < b.1 || (a.1 == b.1 && a.0 < b.0)
}

pub open spec fn sorted_pairs(s: Seq<(usize, i64)>) -> bool {
    forall|i: int, j: int| 0 <= i < j < s.len() ==> pair_lt(s[i], s[j])
}

fn pair_lt_exec(a: (usize, i64), b: (usize, i64)) -> (r: bool)
    ensures
        r == pair_lt(a, b),
{
    a.1 < b.1 || (a.1 == b.1 && a.0 < b.0)
}

fn insert_sorted(pairs: &mut Vec<(usize, i64)>, item: (usize, i64))
    requires
        sorted_pairs(old(pairs)@),
        forall|j: int| 0 <= j < old(pairs)@.len() ==> (#[trigger] old(pairs)@[j]).0 != item.0,
    ensures
        sorted_pairs(final(pairs)@),
        final(pairs)@.len() == old(pairs)@.len() + 1,
        forall|j: int|
            0 <= j < old(pairs)@.len() ==> final(pairs)@.contains(#[trigger] old(pairs)@[j]),
        final(pairs)@.contains(item),
        forall|j: int|
            0 <= j < final(pairs)@.len() ==> final(pairs)@[j] == item || old(pairs)@.contains(
                #[trigger] final(pairs)@[j],
            ),
{
    let mut pos: usize = 0;
    while pos < pairs.len() && !pair_lt_exec(item, pairs[pos as usize])
        invariant
            0 <= pos <= pairs.len(),
            pairs@ == old(pairs)@,
            sorted_pairs(pairs@),
            forall|i: int| 0 <= i < pos ==> pair_lt(#[trigger] pairs@[i], item),
            forall|j: int| 0 <= j < pairs@.len() ==> (#[trigger] pairs@[j]).0 != item.0,
        decreases pairs.len() - pos,
    {
        proof {
            // a pair that is neither larger nor under a different index is smaller
            let p = pairs@[pos as int];
            assert(pair_lt(p, item) || pair_lt(item, p));
        }
        pos += 1;
    }
    let ghost before = pairs@;
    pairs.insert(pos, item);
    proof {
        assert(pairs@ =~= before.subrange(0, pos as int) + seq![item] + before.subrange(
            pos as int,
            before.len() as int,
        ));
        assert forall|i: int, j: int| 0 <= i < j < pairs@.len() implies pair_lt(
            pairs@[i],
            pairs@[j],
        ) by {
            if i < pos && j == pos {
            } else if i == pos && j > pos {
                assert(pairs@[j] == before[j - 1]);
                if j - 1 >= pos {
                    // everything at or past the insertion point is larger
                    assert(!pair_lt(before[pos as int], item) || pos == before.len());
                    if pos < before.len() {
                        assert(pair_lt(item, before[pos as int]) || pair_lt(
                            before[pos as int],
                            item,
                        ));
                    }
                    if j - 1 > pos {
                        assert(pair_lt(before[pos as int], before[j - 1]));
                    }
                }
            } else if i < pos && j > pos {
                assert(pairs@[i] == before[i]);
                assert(pairs@[j] == before[j - 1]);
            } else if i > pos && j > pos {
                assert(pairs@[i] == before[i - 1]);
                assert(pairs@[j] == before[j - 1]);
            }
        }
        assert forall|j: int| 0 <= j < before.len() implies pairs@.contains(
            #[trigger] before[j],
        ) by {
            if j < pos {
                assert(pairs@[j] == before[j]);
            } else {
                assert(pairs@[j + 1] == before[j]);
            }
        }
        assert(pairs@[pos as int] == item);
    }
}

impl AppList {
    /// The indices of the applications matching `input`, ordered by
    /// ascending fuzzy-match score, ties by position; with empty input,
    /// every application in its stored order.
    pub fn compute_app_indices(
        &self,
        matcher: &fuzzy_matcher::skim::SkimMatcherV2,
        input: &str,
    ) -> (r: Vec<usize>)
        ensures
            input@.len() == 0 ==> r@.len() == self.apps@.len() && (forall|k: int|
                0 <= k < r@.len() ==> r@[k] == k),
            input@.len() > 0 ==> {
                &&& forall|i: int|
                    0 <= i < r@.len() ==> r@[i] < self.apps@.len() && match_score(
                        *matcher,
                        self.apps@,
                        input@,
                        #[trigger] r@[i] as int,
                    ) is Some
                &&& forall|i: int, j: int|
                    #![trigger r@[i], r@[j]]
                    0 <= i < j < r@.len() ==> {
                        let si = match_score(*matcher, self.apps@, input@, r@[i] as int)->Some_0;
                        let sj = match_score(*matcher, self.apps@, input@, r@[j] as int)->Some_0;
                        si < sj || (si == sj && r@[i] < r@[j])
                    }
                &&& forall|k: int|
                    0 <= k < self.apps@.len() && match_score(*matcher, self.apps@, input@, k)
                        is Some ==> exists|i: int| 0 <= i < r@.len() && #[trigger] r@[i] == k
            },
    {
        let n = self.apps.len();
        if input.unicode_len() == 0 {
            let mut all: Vec<usize> = Vec::new();
            let mut k: usize = 0;
            while k < n
                invariant
                    0 <= k <= n,
                    all@.len() == k,
                    forall|i: int| 0 <= i < k ==> all@[i] == i,
                decreases n - k,
            {
                all.push(k);
                k += 1;
            }
            return all;
        }
        let mut pairs: Vec<(usize, i64)> = Vec::new();
        let mut k: usize = 0;
        while k < n
            invariant
                0 <= k <= n,
                n == self.apps@.len(),
                input@.len() > 0,
                sorted_pairs(pairs@),
                forall|j: int|
                    0 <= j < pairs@.len() ==> (#[trigger] pairs@[j]).0 < k && match_score(
                        *matcher,
                        self.apps@,
                        input@,
                        pairs@[j].0 as int,
                    ) == Some(pairs@[j].1 as int),
                forall|q: int|
                    0 <= q < k && match_score(*matcher, self.apps@, input@, q) is Some ==> exists|
                        j: int,
                    | 0 <= j < pairs@.len() && (#[trigger] pairs@[j]).0 == q,
            decreases n - k,
        {
            let ghost prev = pairs@;
            match fuzzy_score(matcher, self.apps[k].name.as_str(), input) {
                Some(score) => {
                    insert_sorted(&mut pairs, (k, score));
                    proof {
                        assert forall|q: int|
                            0 <= q < k + 1 && match_score(*matcher, self.apps@, input@, q)
                                is Some implies exists|j: int|
                            0 <= j < pairs@.len() && (#[trigger] pairs@[j]).0 == q by {
                            if q == k {
                                let j = choose|j: int|
                                    0 <= j < pairs@.len() && pairs@[j] == (k, score);
                                assert(pairs@[j].0 == q);
                            } else {
                                let j0 = choose|j: int|
                                    0 <= j < prev.len() && (#[trigger] prev[j]).0 == q;
                                let jj = choose|j: int|
                                    0 <= j < pairs@.len() && pairs@[j] == prev[j0];
                                assert(pairs@[jj].0 == q);
                            }
                        }
                    }
                },
                None => {},
            }
            k += 1;
        }
        let mut out: Vec<usize> = Vec::new();
        let mut i: usize = 0;
        while i < pairs.len()
            invariant
                0 <= i <= pairs@.len(),
                n == self.apps@.len(),
                out@.len() == i,
                sorted_pairs(pairs@),
                forall|j: int|
                    0 <= j < pairs@.len() ==> (#[trigger] pairs@[j]).0 < n && match_score(
                        *matcher,
                        self.apps@,
                        input@,
                        pairs@[j].0 as int,
                    ) == Some(pairs@[j].1 as int),
                forall|j: int| 0 <= j < i ==> out@[j] == (#[trigger] pairs@[j]).0,
            decreases pairs@.len() - i,
        {
            let p = pairs[i];
            out.push(p.0);
            i += 1;
        }
        proof {
            assert forall|q: int|
                0 <= q < self.apps@.len() && match_score(*matcher, self.apps@, input@, q)
                    is Some implies exists|i2: int|
                0 <= i2 < out@.len() && #[trigger] out@[i2] == q by {
                let j = choose|j: int| 0 <= j < pairs@.len() && (#[trigger] pairs@[j]).0 == q;
                assert(out@[j] == q);
            }
            assert forall|i2: int| 0 <= i2 < out@.len() implies out@[i2] < self.apps@.len()
                && match_score(*matcher, self.apps@, input@, #[trigger] out@[i2] as int)
                is Some by {
                assert(out@[i2] == pairs@[i2].0);
            }
            assert forall|i2: int, j2: int|
                #![trigger out@[i2], out@[j2]]
                0 <= i2 < j2 < out@.len() implies {
                let si = match_score(*matcher, self.apps@, input@, out@[i2] as int)->Some_0;
                let sj = match_score(*matcher, self.apps@, input@, out@[j2] as int)->Some_0;
                si < sj || (si == sj && out@[i2] < out@[j2])
            } by {
                assert(out@[i2] == pairs@[i2].0);
                assert(out@[j2] == pairs@[j2].0);
                assert(pair_lt(pairs@[i2], pairs@[j2]));
            }
        }
        out
    }
}
} // verus!

//! The registry of fonts known by name: which font files stand behind the names that the
//! PDF code asks for. Finding the files on disk is the caller's part; the registry keeps
//! what was found.
use vstd::prelude::*;

use crate::text::{chars_of, string_of};

verus! {

/// Font names and the paths of their files, with the directory that is searched first.
pub struct FontRegistry {
    fonts: Vec<(String, String)>,
    font_dir: String,
}

/// The names of a list of entries.
pub open spec fn entry_names(v: Seq<(String, String)>) -> Seq<Seq<char>> {
    v.map_values(|e: (String, String)| e.0@)
}

/// No name occurs twice.
pub open spec fn distinct_names(v: Seq<(String, String)>) -> bool {
    forall|i: int, j: int|
        0 <= i < v.len() && 0 <= j < v.len() && i != j ==> #[trigger] v[i].0@ != #[trigger] v[j].0@
}

/// The map from name to path that a list of entries with distinct names stands for.
pub open spec fn entries_map(v: Seq<(String, String)>) -> Map<Seq<char>, Seq<char>>
    decreases v.len(),
{
    if v.len() == 0 {
        Map::empty()
    } else {
        entries_map(v.drop_last()).insert(v.last().0@, v.last().1@)
    }
}

pub proof fn lemma_entries_map(v: Seq<(String, String)>)
    requires
        distinct_names(v),
    ensures
        entries_map(v).dom() == entry_names(v).to_set(),
        forall|i: int| 0 <= i < v.len() ==> #[trigger] entries_map(v)[v[i].0@] == v[i].1@,
    decreases v.len(),
{
    if v.len() > 0 {
        let w = v.drop_last();
        assert(distinct_names(w)) by {
            assert forall|i: int, j: int|
                0 <= i < w.len() && 0 <= j < w.len() && i != j implies #[trigger] w[i].0@
                != #[trigger] w[j].0@ by {
                assert(w[i] == v[i] && w[j] == v[j]);
            }
        }
        lemma_entries_map(w);
        assert(entry_names(v) == entry_names(w).push(v.last().0@));
        assert(entry_names(v).to_set() =~= entry_names(w).to_set().insert(v.last().0@)) by {
            assert forall|x: Seq<char>| entry_names(v).to_set().contains(x) implies entry_names(
                w,
            ).to_set().insert(v.last().0@).contains(x) by {
                let k = choose|k: int| 0 <= k < entry_names(v).len() && entry_names(v)[k] == x;
                if k < w.len() {
                    assert(entry_names(w)[k] == x);
                }
            }
            assert forall|x: Seq<char>| entry_names(w).to_set().insert(v.last().0@).contains(
                x,
            ) implies entry_names(v).to_set().contains(x) by {
                if x == v.last().0@ {
                    assert(entry_names(v)[v.len() - 1] == x);
                } else {
                    let k = choose|k: int| 0 <= k < entry_names(w).len() && entry_names(w)[k] == x;
                    assert(entry_names(v)[k] == x);
                }
            }
        }
        assert forall|i: int| 0 <= i < v.len() implies #[trigger] entries_map(v)[v[i].0@]
            == v[i].1@ by {
            if i < v.len() - 1 {
                assert(w[i] == v[i]);
                assert(v[i].0@ != v[v.len() - 1].0@);
            }
        }
    }
}

impl FontRegistry {
    #[verifier::type_invariant]
    spec fn wf(self) -> bool {
        distinct_names(self.fonts@)
    }

    /// The registered fonts: name to path.
    pub closed spec fn font_map(self) -> Map<Seq<char>, Seq<char>> {
        entries_map(self.fonts@)
    }

    /// The directory beside the program where font files are looked for.
    pub closed spec fn dir(self) -> Seq<char> {
        self.font_dir@
    }

    /// An empty registry that looks for fonts in `font_dir`.
    pub fn new(font_dir: String) -> (r: Self)
        ensures
            r.font_map() == Map::<Seq<char>, Seq<char>>::empty(),
            r.dir() == font_dir@,
    {
        FontRegistry { fonts: Vec::new(), font_dir }
    }

    fn find(&self, name: &Vec<char>) -> (r: Option<usize>)
        ensures
            r matches Some(i) ==> i < self.fonts@.len() && self.fonts@[i as int].0@ == name@,
            r is None ==> forall|i: int| 0 <= i < self.fonts@.len() ==> self.fonts@[i].0@ != name@,
    {
        let mut i: usize = 0;
        while i < self.fonts.len()
            invariant
                i <= self.fonts@.len(),
                forall|k: int| 0 <= k < i ==> self.fonts@[k].0@ != name@,
            decreases self.fonts.len() - i,
        {
            let n = chars_of(self.fonts[i].0.as_str());
            if crate::text::same_chars(&n, name) {
                return Some(i);
            }
            i += 1;
        }
        None
    }

    /// Registers `name` for the file at `font_path`, in place of an earlier file of that name.
    pub fn register_font(&mut self, name: String, font_path: String)
        ensures
            final(self).font_map() == old(self).font_map().insert(name@, font_path@),
            final(self).dir() == old(self).dir(),
    {
        proof {
            use_type_invariant(&*self);
            lemma_entries_map(self.fonts@);
        }
        let key = chars_of(name.as_str());
        match self.find(&key) {
            Some(i) => {
                let ghost before = self.fonts@;
                let mut fonts = Vec::new();
                std::mem::swap(&mut fonts, &mut self.fonts);
                fonts.set(i, (name, font_path));
                proof {
                    let after = fonts@;
                    assert(distinct_names(after)) by {
                        assert forall|a: int, b: int|
                            0 <= a < after.len() && 0 <= b < after.len() && a != b implies #[trigger] after[a].0@
                            != #[trigger] after[b].0@ by {
                            if a != i && b != i {
                                assert(after[a] == before[a] && after[b] == before[b]);
                            } else if a == i {
                                assert(after[b] == before[b]);
                            } else {
                                assert(after[a] == before[a]);
                            }
                        }
                    }
                    lemma_entries_map(after);
                    assert(entries_map(after) =~= entries_map(before).insert(key@, font_path@)) by {
                        assert(entry_names(after).to_set() =~= entry_names(before).to_set()) by {
                            assert forall|x: Seq<char>| entry_names(after).to_set().contains(x) implies entry_names(before).to_set().contains(x) by {
                                let k = choose|k: int| 0 <= k < entry_names(after).len() && entry_names(after)[k] == x;
                                assert(entry_names(before)[k] == x);
                            }
                            assert forall|x: Seq<char>| entry_names(before).to_set().contains(x) implies entry_names(after).to_set().contains(x) by {
                                let k = choose|k: int| 0 <= k < entry_names(before).len() && entry_names(before)[k] == x;
                                assert(entry_names(after)[k] == x);
                            }
                        }
                        assert(entry_names(before)[i as int] == key@);
                        assert(entries_map(before).contains_key(key@));
                        assert(entries_map(after).dom() =~= entries_map(before).insert(key@, font_path@).dom());
                        assert forall|x: Seq<char>| #[trigger] entries_map(after).contains_key(x) implies entries_map(after)[x] == entries_map(before).insert(key@, font_path@)[x] by {
                            let k = choose|k: int| 0 <= k < entry_names(after).len() && entry_names(after)[k] == x;
                            assert(after[k].0@ == x);
                            assert(entries_map(after)[after[k].0@] == after[k].1@);
                            if k != i {
                                assert(after[k] == before[k]);
                                assert(before[k].0@ != before[i as int].0@);
                                assert(entries_map(before)[before[k].0@] == before[k].1@);
                            } else {
                                assert(after[k].1@ == font_path@);
                            }
                        }
                    }
                }
                self.fonts = fonts;
            },
            None => {
                let ghost before = self.fonts@;
                let mut fonts = Vec::new();
                std::mem::swap(&mut fonts, &mut self.fonts);
                fonts.push((name, font_path));
                proof {
                    let after = fonts@;
                    assert(after.drop_last() == before);
                    assert(distinct_names(after)) by {
                        assert forall|a: int, b: int|
                            0 <= a < after.len() && 0 <= b < after.len() && a != b implies #[trigger] after[a].0@
                            != #[trigger] after[b].0@ by {
                            if a < before.len() && b < before.len() {
                                assert(after[a] == before[a] && after[b] == before[b]);
                            } else if a < before.len() {
                                assert(after[a] == before[a]);
                            } else {
                                assert(after[b] == before[b]);
                            }
                        }
                    }
                }
                self.fonts = fonts;
            },
        }
    }

    /// The path of the font registered as `name`.
    pub fn get_font_path(&self, name: &str) -> (r: Option<String>)
        ensures
            r matches Some(p) ==> self.font_map().contains_key(name@) && p@ == self.font_map()[name@],
            r is None ==> !self.font_map().contains_key(name@),
    {
        proof {
            use_type_invariant(self);
            lemma_entries_map(self.fonts@);
        }
        let key = chars_of(name);
        match self.find(&key) {
            Some(i) => {
                assert(entry_names(self.fonts@)[i as int] == name@);
                Some(self.fonts[i].1.clone())
            },
            None => {
                proof {
                    if entry_names(self.fonts@).to_set().contains(name@) {
                        let k = choose|k: int| 0 <= k < entry_names(self.fonts@).len() && entry_names(self.fonts@)[k] == name@;
                        assert(self.fonts@[k].0@ == name@);
                    }
                }
                None
            },
        }
    }

    /// The directory searched for font files.
    pub fn font_dir(&self) -> (r: String)
        ensures
            r@ == self.dir(),
    {
        self.font_dir.clone()
    }

    /// The registered names, each once.
    pub fn names(&self) -> (r: Vec<String>)
        ensures
            r@.map_values(|s: String| s@).to_set() == self.font_map().dom(),
            r@.map_values(|s: String| s@).no_duplicates(),
    {
        proof {
            use_type_invariant(self);
            lemma_entries_map(self.fonts@);
        }
        let mut r: Vec<String> = Vec::new();
        let mut i: usize = 0;
        while i < self.fonts.len()
            invariant
                i <= self.fonts@.len(),
                distinct_names(self.fonts@),
                r@.map_values(|s: String| s@) == entry_names(self.fonts@).take(i as int),
            decreases self.fonts.len() - i,
        {
            let ghost before = r@;
            let name = self.fonts[i].0.clone();
            assert(name@ == self.fonts@[i as int].0@);
            r.push(name);
            assert(r@ == before.push(name));
            assert(r@.map_values(|s: String| s@) =~= before.map_values(|s: String| s@).push(name@));
            assert(entry_names(self.fonts@).take(i + 1) =~= entry_names(self.fonts@).take(i as int).push(self.fonts@[i as int].0@));
            i += 1;
        }
        assert(entry_names(self.fonts@).take(self.fonts.len() as int) =~= entry_names(self.fonts@));
        assert(entry_names(self.fonts@).no_duplicates()) by {
            assert forall|a: int, b: int|
                0 <= a < entry_names(self.fonts@).len() && 0 <= b < entry_names(self.fonts@).len()
                    && a != b implies entry_names(self.fonts@)[a] != entry_names(self.fonts@)[b] by {
                assert(self.fonts@[a].0@ != self.fonts@[b].0@);
            }
        }
        r
    }

    /// Registers the default fonts that were found, then the system fallbacks for the
    /// Japanese sans-serif and emoji names that are still missing.
    ///
    /// `default_paths[i]` is the file found for the i-th entry of [`default_font_files`];
    /// `sans_fallback` and `emoji_fallback` are system font files that the PDF writer
    /// could load.
    pub fn initialize_default_fonts(
        &mut self,
        default_paths: Vec<Option<String>>,
        sans_fallback: Option<String>,
        emoji_fallback: Option<String>,
    )
        requires
            default_paths.len() == default_fonts().len(),
        ensures
            final(self).font_map() == initialized(
                old(self).font_map(),
                default_paths@.map_values(|o: Option<String>| match o {
                    Some(p) => Some(p@),
                    None => None,
                }),
                match sans_fallback {
                    Some(p) => Some(p@),
                    None => None,
                },
                match emoji_fallback {
                    Some(p) => Some(p@),
                    None => None,
                },
            ),
            final(self).dir() == old(self).dir(),
    {
        let ghost m0 = self.font_map();
        let ghost dp = default_paths@.map_values(|o: Option<String>| match o {
            Some(p) => Some(p@),
            None => None,
        });
        let names = default_font_files();
        let mut i: usize = 0;
        while i < default_paths.len()
            invariant
                i <= default_paths.len() == default_fonts().len() == names@.len(),
                dp == default_paths@.map_values(|o: Option<String>| match o {
                    Some(p) => Some(p@),
                    None => None,
                }),
                forall|k: int| 0 <= k < names@.len() ==> #[trigger] names@[k].0@ == default_fonts()[k].0,
                self.font_map() == register_found(m0, dp.take(i as int)),
                self.dir() == old(self).dir(),
            decreases default_paths.len() - i,
        {
            assert(dp.take(i + 1).drop_last() =~= dp.take(i as int));
            match &default_paths[i] {
                Some(p) => {
                    self.register_font(names[i].0.clone(), p.clone());
                },
                None => {},
            }
            i += 1;
        }
        assert(dp.take(default_paths.len() as int) =~= dp);
        let sans = vec!['N', 'o', 't', 'o', 'S', 'a', 'n', 's', 'J', 'P'];
        assert(sans@ =~= sans_name());
        if let Some(p) = sans_fallback {
            if !self.contains(&sans) {
                self.register_font(string_of(&sans), p);
            }
        }
        let emoji = vec!['E', 'm', 'o', 'j', 'i'];
        assert(emoji@ =~= emoji_name());
        if let Some(p) = emoji_fallback {
            if !self.contains(&emoji) {
                self.register_font(string_of(&emoji), p);
            }
        }
    }

    fn contains(&self, name: &Vec<char>) -> (b: bool)
        ensures
            b == self.font_map().contains_key(name@),
    {
        proof {
            use_type_invariant(self);
            lemma_entries_map(self.fonts@);
        }
        match self.find(name) {
            Some(i) => {
                assert(entry_names(self.fonts@)[i as int] == name@);
                true
            },
            None => {
                proof {
                    if entry_names(self.fonts@).to_set().contains(name@) {
                        let k = choose|k: int| 0 <= k < entry_names(self.fonts@).len() && entry_names(self.fonts@)[k] == name@;
                        assert(self.fonts@[k].0@ == name@);
                    }
                }
                false
            },
        }
    }
}

pub open spec fn sans_name() -> Seq<char> {
    seq!['N', 'o', 't', 'o', 'S', 'a', 'n', 's', 'J', 'P']
}

pub open spec fn emoji_name() -> Seq<char> {
    seq!['E', 'm', 'o', 'j', 'i']
}

/// The fonts registered at start-up, as (name, file name).
pub open spec fn default_fonts() -> Seq<(Seq<char>, Seq<char>)> {
    seq![
        (sans_name(), "NotoSansJP-Regular.ttf"@),
        ("NotoSansJP-Bold"@, "NotoSansJP-Bold.ttf"@),
        ("NotoSerifJP"@, "NotoSerifJP-Regular.ttf"@),
    ]
}

/// `m` with each default font whose file was found registered, in order.
pub open spec fn register_found(m: Map<Seq<char>, Seq<char>>, found: Seq<Option<Seq<char>>>) -> Map<
    Seq<char>,
    Seq<char>,
>
    decreases found.len(),
{
    if found.len() == 0 {
        m
    } else {
        let m1 = register_found(m, found.drop_last());
        match found.last() {
            Some(p) => m1.insert(default_fonts()[found.len() - 1].0, p),
            None => m1,
        }
    }
}

/// The registry after start-up: the defaults that were found, then each fallback under its
/// name when that name is still missing.
pub open spec fn initialized(
    m: Map<Seq<char>, Seq<char>>,
    found: Seq<Option<Seq<char>>>,
    sans: Option<Seq<char>>,
    emoji: Option<Seq<char>>,
) -> Map<Seq<char>, Seq<char>> {
    let m1 = register_found(m, found);
    let m2 = match sans {
        Some(p) if !m1.contains_key(sans_name()) => m1.insert(sans_name(), p),
        _ => m1,
    };
    match emoji {
        Some(p) if !m2.contains_key(emoji_name()) => m2.insert(emoji_name(), p),
        _ => m2,
    }
}

/// The default fonts as (name, file name), in the order [`FontRegistry::initialize_default_fonts`]
/// takes their paths.
pub fn default_font_files() -> (r: Vec<(String, String)>)
    ensures
        r@.len() == default_fonts().len(),
        forall|k: int| 0 <= k < r@.len() ==> #[trigger] r@[k].0@ == default_fonts()[k].0 && r@[k].1@
            == default_fonts()[k].1,
{
    let mut r: Vec<(String, String)> = Vec::new();
    r.push((String::from_str("NotoSansJP"), String::from_str("NotoSansJP-Regular.ttf")));
    r.push((String::from_str("NotoSansJP-Bold"), String::from_str("NotoSansJP-Bold.ttf")));
    r.push((String::from_str("NotoSerifJP"), String::from_str("NotoSerifJP-Regular.ttf")));
    proof {
        reveal_strlit("NotoSansJP");
        assert("NotoSansJP"@ =~= sans_name());
    }
    r
}

/// The path of the font registered as `font_name`.
pub fn get_font_path(registry: &FontRegistry, font_name: &str) -> (r: Option<String>)
    ensures
        r matches Some(p) ==> registry.font_map().contains_key(font_name@) && p@
            == registry.font_map()[font_name@],
        r is None ==> !registry.font_map().contains_key(font_name@),
{
    registry.get_font_path(font_name)
}

/// The directory searched for font files.
pub fn get_font_dir(registry: &FontRegistry) -> (r: String)
    ensures
        r@ == registry.dir(),
{
    registry.font_dir()
}

/// The names of the registered fonts, each once.
pub fn get_available_fonts(registry: &FontRegistry) -> (r: Vec<String>)
    ensures
        r@.map_values(|s: String| s@).to_set() == registry.font_map().dom(),
        r@.map_values(|s: String| s@).no_duplicates(),
{
    registry.names()
}

/// Whether a font is registered as `font_name`.
pub fn is_font_available(registry: &FontRegistry, font_name: &str) -> (b: bool)
    ensures
        b == registry.font_map().contains_key(font_name@),
{
    registry.get_font_path(font_name).is_some()
}

proof fn lemma_default_names_distinct()
    ensures
        forall|i: int, j: int|
            0 <= i < default_fonts().len() && 0 <= j < default_fonts().len() && i != j ==> #[trigger] default_fonts()[i].0
                != #[trigger] default_fonts()[j].0,
{
    reveal_strlit("NotoSansJP-Bold");
    reveal_strlit("NotoSerifJP");
    assert(default_fonts()[0].0.len() == 10);
    assert(default_fonts()[1].0.len() == 15);
    assert(default_fonts()[2].0.len() == 11);
}

proof fn lemma_register_found(m: Map<Seq<char>, Seq<char>>, found: Seq<Option<Seq<char>>>, k: int)
    requires
        found.len() <= default_fonts().len(),
        0 <= k < found.len(),
        found[k] is Some,
    ensures
        register_found(m, found).contains_key(default_fonts()[k].0),
        register_found(m, found)[default_fonts()[k].0] == found[k]->0,
    decreases found.len(),
{
    lemma_default_names_distinct();
    if k < found.len() - 1 {
        lemma_register_found(m, found.drop_last(), k);
        assert(found.drop_last()[k] == found[k]);
        assert(default_fonts()[found.len() - 1].0 != default_fonts()[k].0);
    }
}

/// After start-up or a rescan, every default font whose file was found is registered under
/// its name with that file, whatever the fallbacks are.
pub proof fn law_found_defaults_registered(
    m: Map<Seq<char>, Seq<char>>,
    found: Seq<Option<Seq<char>>>,
    sans: Option<Seq<char>>,
    emoji: Option<Seq<char>>,
    k: int,
)
    requires
        found.len() == default_fonts().len(),
        0 <= k < found.len(),
        found[k] is Some,
    ensures
        initialized(m, found, sans, emoji).contains_key(default_fonts()[k].0),
        initialized(m, found, sans, emoji)[default_fonts()[k].0] == found[k]->0,
{
    lemma_register_found(m, found, k);
}

/// Looks at the font files again, for fonts added while the program runs:
/// `default_paths[i]` is the file now found for the i-th default font (see
/// [`default_font_files`]), `sans_fallback` and `emoji_fallback` the system files for the
/// names still missing. Each default font found is then registered under its name.
pub fn rescan_fonts(
    registry: &mut FontRegistry,
    default_paths: Vec<Option<String>>,
    sans_fallback: Option<String>,
    emoji_fallback: Option<String>,
)
    requires
        default_paths.len() == default_fonts().len(),
    ensures
        final(registry).font_map() == initialized(
            old(registry).font_map(),
            default_paths@.map_values(|o: Option<String>| match o {
                Some(p) => Some(p@),
                None => None,
            }),
            match sans_fallback {
                Some(p) => Some(p@),
                None => None,
            },
            match emoji_fallback {
                Some(p) => Some(p@),
                None => None,
            },
        ),
        final(registry).dir() == old(registry).dir(),
        forall|k: int| 0 <= k < default_paths.len() && (#[trigger] default_paths@[k]) is Some ==> final(registry).font_map().contains_key(default_fonts()[k].0)
            && final(registry).font_map()[default_fonts()[k].0] == default_paths@[k]->0@,
{
    let ghost m0 = registry.font_map();
    let ghost dp = default_paths@.map_values(|o: Option<String>| match o {
        Some(p) => Some(p@),
        None => None,
    });
    let ghost sv = match &sans_fallback {
        Some(p) => Some(p@),
        None => None,
    };
    let ghost ev = match &emoji_fallback {
        Some(p) => Some(p@),
        None => None,
    };
    let ghost paths = default_paths@;
    registry.initialize_default_fonts(default_paths, sans_fallback, emoji_fallback);
    proof {
        assert forall|k: int| 0 <= k < paths.len() && (#[trigger] paths[k]) is Some implies registry.font_map().contains_key(
            default_fonts()[k].0,
        ) && registry.font_map()[default_fonts()[k].0] == paths[k]->0@ by {
            assert(dp[k] == Some(paths[k]->0@));
            law_found_defaults_registered(m0, dp, sv, ev, k);
        }
    }
}

} // verus!

verus! {

/// A font registered under a name is found under that name, at the path it was registered
/// with; every other name keeps what it had.
pub proof fn law_register_then_lookup(
    before: Map<Seq<char>, Seq<char>>,
    after: Map<Seq<char>, Seq<char>>,
    name: Seq<char>,
    path: Seq<char>,
    other: Seq<char>,
)
    requires
        after == before.insert(name, path),
    ensures
        after.contains_key(name),
        after[name] == path,
        other != name ==> (after.contains_key(other) == before.contains_key(other)),
        other != name && before.contains_key(other) ==> after[other] == before[other],
{
}

} // verus!

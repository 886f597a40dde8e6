//! The configured languages: their metadata and which one is selected.
//! Reading and writing the configuration and language files is left to the caller;
//! the operations here decide what changes and which language file is concerned.
use vstd::prelude::*;
use crate::error::CipherError;
use crate::text::trimmed;

verus! {

/// Metadata of a configured language.
#[derive(Debug)]
pub struct LangMeta {
    /// Identifies the language's file.
    pub id: usize,
    /// Length of the primary alphabet.
    pub primary: usize,
    /// Lengths of the alphabets.
    pub alphabets: Vec<usize>,
}

/// Relies on `str::trim`: the result is `s` without leading and trailing white space, white
/// space being the characters of the Unicode `White_Space` property.
#[verifier::external_body]
fn trim(s: &str) -> (r: &str)
    ensures
        r@ == trimmed(s@),
{
    s.trim()
}

/// The content of a configuration.
pub struct ConfigModel {
    /// The selected language's name, if any.
    pub selected: Option<Seq<char>>,
    /// Each configured language's name and metadata, in order of addition.
    pub langs: Seq<(Seq<char>, LangMeta)>,
}

/// Some entry of `langs` is named `n`.
pub open spec fn has_name(langs: Seq<(Seq<char>, LangMeta)>, n: Seq<char>) -> bool {
    exists|i: int| 0 <= i < langs.len() && langs[i].0 == n
}

/// No two entries of `langs` share a name.
pub open spec fn distinct_names(langs: Seq<(Seq<char>, LangMeta)>) -> bool {
    forall|i: int, j: int| 0 <= i < j < langs.len() ==> langs[i].0 != langs[j].0
}

/// The metadata recorded under the name `n`, when `langs` has distinct names.
pub open spec fn meta_of(langs: Seq<(Seq<char>, LangMeta)>, n: Seq<char>) -> LangMeta
    recommends
        has_name(langs, n),
{
    langs[choose|i: int| 0 <= i < langs.len() && langs[i].0 == n].1
}

/// The largest id in use, 0 when there is none.
pub open spec fn max_id(langs: Seq<(Seq<char>, LangMeta)>) -> nat
    decreases langs.len(),
{
    if langs.len() == 0 {
        0
    } else {
        let m = max_id(langs.drop_last());
        if langs.last().1.id > m { langs.last().1.id as nat } else { m }
    }
}

/// The id of the language named `name` (surrounding white space ignored), or `LangNotFound`.
pub open spec fn id_result(langs: Seq<(Seq<char>, LangMeta)>, name: Seq<char>) -> Result<usize, CipherError> {
    if has_name(langs, trimmed(name)) {
        Ok(meta_of(langs, trimmed(name)).id)
    } else {
        Err(CipherError::LangNotFound)
    }
}

/// The id of the selected language, `NoLangSelected` when none is selected.
pub open spec fn selected_id_result(c: ConfigModel) -> Result<usize, CipherError> {
    match c.selected {
        Some(n) => id_result(c.langs, n),
        None => Err(CipherError::NoLangSelected),
    }
}

/// An id that no language uses: one more than the largest in use, 0 when there is none.
pub open spec fn next_id(langs: Seq<(Seq<char>, LangMeta)>) -> nat {
    if langs.len() == 0 { 0 } else { max_id(langs) + 1 }
}

/// Every id in use is at most the largest.
pub proof fn lemma_max_id_bound(langs: Seq<(Seq<char>, LangMeta)>)
    ensures
        forall|i: int| 0 <= i < langs.len() ==> #[trigger] langs[i].1.id <= max_id(langs),
    decreases langs.len(),
{
    if langs.len() > 0 {
        lemma_max_id_bound(langs.drop_last());
        assert forall|i: int| 0 <= i < langs.len() implies #[trigger] langs[i].1.id <= max_id(langs) by {
            if i < langs.len() - 1 {
                assert(langs[i] == langs.drop_last()[i]);
            }
        }
    }
}

/// The configuration: the languages that were added and the selected one.
#[derive(Debug)]
pub struct CipherConfig {
    selected_lang: Option<String>,
    langs: Vec<(String, LangMeta)>,
}

impl View for CipherConfig {
    type V = ConfigModel;

    closed spec fn view(&self) -> ConfigModel {
        ConfigModel {
            selected: match self.selected_lang {
                Some(s) => Some(s@),
                None => None,
            },
            langs: self.langs@.map_values(|e: (String, LangMeta)| (e.0@, e.1)),
        }
    }
}

impl CipherConfig {
    pub open spec fn wf(&self) -> bool {
        distinct_names(self@.langs)
    }

    /// An empty configuration: no language, none selected.
    pub fn new() -> (r: CipherConfig)
        ensures
            r.wf(),
            r@.selected is None,
            r@.langs.len() == 0,
    {
        let r = CipherConfig { selected_lang: None, langs: Vec::new() };
        assert(r@.langs =~= Seq::<(Seq<char>, LangMeta)>::empty());
        r
    }

    /// Position of the language named `name`.
    fn position(&self, name: &str) -> (r: Option<usize>)
        ensures
            match r {
                Some(i) => i < self@.langs.len() && self@.langs[i as int].0 == name@,
                None => !has_name(self@.langs, name@),
            },
    {
        let key = name.to_owned();
        let n = self.langs.len();
        let mut i: usize = 0;
        while i < n
            invariant
                n == self@.langs.len(),
                key@ == name@,
                i <= n,
                forall|j: int| 0 <= j < i ==> #[trigger] self@.langs[j].0 != name@,
            decreases n - i,
        {
            assert(self@.langs[i as int].0 == self.langs@[i as int].0@);
            if self.langs[i].0 == key {
                return Some(i);
            }
            i = i + 1;
        }
        None
    }

    /// The selected language's name.
    pub fn selected_lang(&self) -> (r: Option<&str>)
        ensures
            match r {
                Some(s) => self@.selected == Some(s@),
                None => self@.selected is None,
            },
    {
        match &self.selected_lang {
            Some(s) => Some(s.as_str()),
            None => None,
        }
    }

    /// Metadata of the language named `name`, surrounding white space ignored.
    pub fn lang_meta(&self, name: &str) -> (r: Option<&LangMeta>)
        requires
            self.wf(),
        ensures
            match r {
                Some(m) => has_name(self@.langs, trimmed(name@)) && *m == meta_of(self@.langs, trimmed(name@)),
                None => !has_name(self@.langs, trimmed(name@)),
            },
    {
        let t = trim(name);
        match self.position(t) {
            Some(i) => {
                assert(self@.langs[i as int].1 == self.langs@[i as int].1);
                Some(&self.langs[i].1)
            },
            None => None,
        }
    }

    /// Names of the configured languages, in order of addition.
    pub fn lang_names(&self) -> (r: Vec<String>)
        ensures
            r@.len() == self@.langs.len(),
            forall|i: int| 0 <= i < r@.len() ==> #[trigger] r@[i]@ == self@.langs[i].0,
    {
        let n = self.langs.len();
        let mut r: Vec<String> = Vec::new();
        let mut i: usize = 0;
        while i < n
            invariant
                n == self@.langs.len(),
                i <= n,
                r@.len() == i,
                forall|j: int| 0 <= j < i ==> #[trigger] r@[j]@ == self@.langs[j].0,
            decreases n - i,
        {
            assert(self@.langs[i as int].0 == self.langs@[i as int].0@);
            r.push(self.langs[i].0.clone());
            i = i + 1;
        }
        r
    }

    /// Selects the language named `name`, surrounding white space ignored; fails with
    /// `LangNotFound`, changing nothing, when there is no such language.
    pub fn set_selected(&mut self, name: &str) -> (r: Result<(), CipherError>)
        requires
            old(self).wf(),
        ensures
            final(self).wf(),
            final(self)@.langs == old(self)@.langs,
            has_name(old(self)@.langs, trimmed(name@)) ==> r is Ok && final(self)@.selected == Some(trimmed(name@)),
            !has_name(old(self)@.langs, trimmed(name@)) ==> r == Err::<(), CipherError>(CipherError::LangNotFound)
                && final(self)@.selected == old(self)@.selected,
    {
        let t = trim(name);
        match self.position(t) {
            Some(_) => {
                self.selected_lang = Some(t.to_owned());
                Ok(())
            },
            None => Err(CipherError::LangNotFound),
        }
    }

    /// The id of the language named `name`, surrounding white space ignored.
    pub fn lang_id(&self, name: &str) -> (r: Result<usize, CipherError>)
        requires
            self.wf(),
        ensures
            r == id_result(self@.langs, name@),
    {
        let t = trim(name);
        match self.position(t) {
            Some(i) => {
                assert(self@.langs[i as int].1 == self.langs@[i as int].1);
                Ok(self.langs[i].1.id)
            },
            None => Err(CipherError::LangNotFound),
        }
    }

    /// The id of the selected language.
    pub fn selected_id(&self) -> (r: Result<usize, CipherError>)
        requires
            self.wf(),
        ensures
            r == selected_id_result(self@),
    {
        match &self.selected_lang {
            Some(s) => self.lang_id(s.as_str()),
            None => Err(CipherError::NoLangSelected),
        }
    }

    /// The id of the language named `name` when there is one, else that of the selected
    /// language. The choice is made on names alone; falling back when a language's file
    /// cannot be read is left to the caller.
    pub fn lang_id_or_selected(&self, name: Option<&str>) -> (r: Result<usize, CipherError>)
        requires
            self.wf(),
        ensures
            r == match name {
                Some(n) => if id_result(self@.langs, n@) is Ok {
                    id_result(self@.langs, n@)
                } else {
                    selected_id_result(self@)
                },
                None => selected_id_result(self@),
            },
    {
        match name {
            Some(n) => match self.lang_id(n) {
                Ok(id) => Ok(id),
                Err(_) => self.selected_id(),
            },
            None => self.selected_id(),
        }
    }

    /// Adds a language under `name`, surrounding white space removed, and returns the id of
    /// its file: one more than the largest id in use, 0 when there is none, so that no other
    /// language has it. Fails with `LangAlreadyExists` when the name is taken, and with
    /// `IdsExhausted` when the largest id in use is `usize::MAX`; on failure nothing changes.
    pub fn add_lang(&mut self, name: &str, primary: usize, alphabets: Vec<usize>) -> (r: Result<usize, CipherError>)
        requires
            old(self).wf(),
        ensures
            final(self).wf(),
            has_name(old(self)@.langs, trimmed(name@)) ==> r == Err::<usize, CipherError>(CipherError::LangAlreadyExists)
                && final(self)@ == old(self)@,
            !has_name(old(self)@.langs, trimmed(name@)) && next_id(old(self)@.langs) > usize::MAX ==> r == Err::<
                usize,
                CipherError,
            >(CipherError::IdsExhausted) && final(self)@ == old(self)@,
            !has_name(old(self)@.langs, trimmed(name@)) && next_id(old(self)@.langs) <= usize::MAX ==> r == Ok::<
                usize,
                CipherError,
            >(next_id(old(self)@.langs) as usize) && final(self)@.selected == old(self)@.selected
                && final(self)@.langs == old(self)@.langs.push(
                (trimmed(name@), LangMeta { id: next_id(old(self)@.langs) as usize, primary, alphabets }),
            ),
            r is Ok ==> forall|i: int| 0 <= i < old(self)@.langs.len() ==> #[trigger] old(self)@.langs[i].1.id != r->Ok_0,
    {
        let t = trim(name);
        if self.position(t).is_some() {
            return Err(CipherError::LangAlreadyExists);
        }
        let n = self.langs.len();
        let mut largest: usize = 0;
        let mut i: usize = 0;
        while i < n
            invariant
                n == self@.langs.len(),
                i <= n,
                largest == max_id(self@.langs.take(i as int)),
            decreases n - i,
        {
            assert(self@.langs.take(i + 1).drop_last() =~= self@.langs.take(i as int));
            assert(self@.langs[i as int].1 == self.langs@[i as int].1);
            if self.langs[i].1.id > largest {
                largest = self.langs[i].1.id;
            }
            i = i + 1;
        }
        assert(self@.langs.take(n as int) =~= self@.langs);
        proof {
            lemma_max_id_bound(self@.langs);
        }
        let id = if n == 0 {
            0
        } else if largest == usize::MAX {
            return Err(CipherError::IdsExhausted);
        } else {
            largest + 1
        };
        let ghost before = self@;
        self.langs.push((t.to_owned(), LangMeta { id, primary, alphabets }));
        assert(self@.langs =~= before.langs.push((trimmed(name@), LangMeta { id, primary, alphabets })));
        Ok(id)
    }

    /// Removes the language named `name`, surrounding white space ignored, and returns the
    /// id of its file; the selection is cleared if it named that language. Fails with
    /// `LangNotFound`, changing nothing, when there is no such language.
    pub fn rm_lang(&mut self, name: &str) -> (r: Result<usize, CipherError>)
        requires
            old(self).wf(),
        ensures
            final(self).wf(),
            !has_name(old(self)@.langs, trimmed(name@)) ==> r == Err::<usize, CipherError>(CipherError::LangNotFound)
                && final(self)@ == old(self)@,
            has_name(old(self)@.langs, trimmed(name@)) ==> r == Ok::<usize, CipherError>(meta_of(old(self)@.langs, trimmed(name@)).id)
                && !has_name(final(self)@.langs, trimmed(name@))
                && (forall|n: Seq<char>| n != trimmed(name@) ==> (has_name(final(self)@.langs, n) <==> has_name(old(self)@.langs, n))
                    && (has_name(final(self)@.langs, n) ==> meta_of(final(self)@.langs, n) == meta_of(old(self)@.langs, n)))
                && final(self)@.selected == (if old(self)@.selected == Some(trimmed(name@)) {
                    None::<Seq<char>>
                } else {
                    old(self)@.selected
                }),
    {
        let t = trim(name);
        match self.position(t) {
            None => Err(CipherError::LangNotFound),
            Some(i) => {
                let ghost before = self@;
                let entry = self.langs.remove(i);
                let id = entry.1.id;
                assert(self@.langs =~= before.langs.remove(i as int));
                let key = t.to_owned();
                let clear = match &self.selected_lang {
                    Some(s) => *s == key,
                    None => false,
                };
                if clear {
                    self.selected_lang = None;
                }
                proof {
                    let old_l = before.langs;
                    let new_l = self@.langs;
                    assert(old_l[i as int].1 == entry.1);
                    assert(meta_of(old_l, trimmed(name@)) == old_l[i as int].1);
                    assert forall|a: int, b: int| 0 <= a < b < new_l.len() implies new_l[a].0 != new_l[b].0 by {
                        if a < i && b < i {
                            assert(new_l[a] == old_l[a] && new_l[b] == old_l[b]);
                        } else if a < i {
                            assert(new_l[a] == old_l[a] && new_l[b] == old_l[b + 1]);
                        } else {
                            assert(new_l[a] == old_l[a + 1] && new_l[b] == old_l[b + 1]);
                        }
                    }
                    assert forall|n: Seq<char>| n != trimmed(name@) implies (has_name(new_l, n) <==> has_name(old_l, n))
                        && (has_name(new_l, n) ==> meta_of(new_l, n) == meta_of(old_l, n)) by {
                        if has_name(old_l, n) {
                            let k = choose|k: int| 0 <= k < old_l.len() && old_l[k].0 == n;
                            let k2 = if k < i { k } else { k - 1 };
                            assert(new_l[k2] == old_l[k]);
                        }
                        if has_name(new_l, n) {
                            let k = choose|k: int| 0 <= k < new_l.len() && new_l[k].0 == n;
                            let k2 = if k < i { k } else { k + 1 };
                            assert(new_l[k] == old_l[k2]);
                            let c1 = choose|c: int| 0 <= c < new_l.len() && new_l[c].0 == n;
                            let c2 = choose|c: int| 0 <= c < old_l.len() && old_l[c].0 == n;
                            let c1o = if c1 < i { c1 } else { c1 + 1 };
                            assert(new_l[c1] == old_l[c1o]);
                        }
                    }
                    if has_name(new_l, trimmed(name@)) {
                        let k = choose|k: int| 0 <= k < new_l.len() && new_l[k].0 == trimmed(name@);
                        let k2 = if k < i { k } else { k + 1 };
                        assert(new_l[k] == old_l[k2]);
                    }
                }
                Ok(id)
            },
        }
    }

    /// Sets the primary alphabet length of the language named `name`, or of the selected
    /// language when `name` is `None`, and returns the id of its file. Fails with
    /// `NoLangSelected` when no name is given and none is selected, and with `LangNotFound`
    /// when there is no such language; on failure nothing changes.
    pub fn set_primary_alph(&mut self, name: Option<&str>, length: usize) -> (r: Result<usize, CipherError>)
        requires
            old(self).wf(),
        ensures
            final(self).wf(),
            final(self)@.selected == old(self)@.selected,
            r == match name {
                Some(n) => id_result(old(self)@.langs, n@),
                None => selected_id_result(old(self)@),
            },
            r is Err ==> final(self)@ == old(self)@,
            r is Ok ==> final(self)@.langs.len() == old(self)@.langs.len()
                && forall|i: int| 0 <= i < old(self)@.langs.len() ==> {
                    let (n0, m0) = #[trigger] old(self)@.langs[i];
                    let (n1, m1) = final(self)@.langs[i];
                    n1 == n0 && m1.id == m0.id && m1.alphabets == m0.alphabets
                        && m1.primary == (if m0.id == r->Ok_0 && n0 == match name {
                            Some(n) => trimmed(n@),
                            None => trimmed(old(self)@.selected->Some_0),
                        } { length } else { m0.primary })
                },
    {
        let t = match name {
            Some(n) => trim(n),
            None => match &self.selected_lang {
                Some(s) => trim(s.as_str()),
                None => return Err(CipherError::NoLangSelected),
            },
        };
        match self.position(t) {
            None => Err(CipherError::LangNotFound),
            Some(i) => {
                let ghost before = self@;
                assert(meta_of(before.langs, t@) == before.langs[i as int].1);
                let (key, meta) = self.langs.remove(i);
                let LangMeta { id, primary: _, alphabets } = meta;
                self.langs.insert(i, (key, LangMeta { id, primary: length, alphabets }));
                proof {
                    let old_l = before.langs;
                    let new_l = self@.langs;
                    assert(new_l.len() == old_l.len());
                    assert forall|j: int| 0 <= j < new_l.len() implies new_l[j].0 == old_l[j].0 && (j != i ==> new_l[j] == old_l[j]) by {}
                    assert forall|a: int, b: int| 0 <= a < b < new_l.len() implies new_l[a].0 != new_l[b].0 by {}
                }
                Ok(id)
            },
        }
    }

    /// The configured languages with their metadata, in order of addition.
    pub fn langs(&self) -> (r: &Vec<(String, LangMeta)>)
        ensures
            r@.len() == self@.langs.len(),
            forall|i: int| 0 <= i < r@.len() ==> #[trigger] r@[i].0@ == self@.langs[i].0 && r@[i].1 == self@.langs[i].1,
    {
        &self.langs
    }

    /// A configuration with the given selection and languages; `None` when two languages
    /// share a name.
    pub fn from_parts(selected_lang: Option<String>, langs: Vec<(String, LangMeta)>) -> (r: Option<CipherConfig>)
        ensures
            match r {
                Some(c) => c.wf() && c@.selected == (match selected_lang {
                    Some(s) => Some(s@),
                    None => None::<Seq<char>>,
                }) && c@.langs.len() == langs@.len() && forall|i: int| 0 <= i < langs@.len()
                    ==> #[trigger] c@.langs[i] == (langs@[i].0@, langs@[i].1),
                None => exists|a: int, b: int| 0 <= a < b < langs@.len() && langs@[a].0@ == langs@[b].0@,
            },
    {
        let n = langs.len();
        let mut i: usize = 1;
        while i < n
            invariant
                n == langs@.len(),
                1 <= i,
                forall|a: int, b: int| 0 <= a < b < i && b < n ==> langs@[a].0@ != langs@[b].0@,
            decreases n - i,
        {
            let mut j: usize = 0;
            while j < i
                invariant
                    n == langs@.len(),
                    0 <= j <= i < n,
                    forall|a: int| 0 <= a < j ==> langs@[a].0@ != langs@[i as int].0@,
                decreases i - j,
            {
                if langs[j].0 == langs[i].0 {
                    return None;
                }
                j = j + 1;
            }
            i = i + 1;
        }
        let c = CipherConfig { selected_lang, langs };
        assert forall|a: int, b: int| 0 <= a < b < c@.langs.len() implies c@.langs[a].0 != c@.langs[b].0 by {
            assert(c@.langs[a].0 == c.langs@[a].0@);
            assert(c@.langs[b].0 == c.langs@[b].0@);
        }
        Some(c)
    }

    /// The configuration to work with, given what was read from storage: the stored
    /// selection and languages when there were any and their names are distinct, else an
    /// empty configuration.
    pub fn load(stored: Option<(Option<String>, Vec<(String, LangMeta)>)>) -> (r: CipherConfig)
        ensures
            r.wf(),
            match stored {
                Some((sel, langs)) => if exists|a: int, b: int| 0 <= a < b < langs@.len() && langs@[a].0@ == langs@[b].0@ {
                    r@.selected is None && r@.langs.len() == 0
                } else {
                    r@.selected == (match sel {
                        Some(s) => Some(s@),
                        None => None::<Seq<char>>,
                    }) && r@.langs.len() == langs@.len() && forall|i: int| 0 <= i < langs@.len()
                        ==> #[trigger] r@.langs[i] == (langs@[i].0@, langs@[i].1)
                },
                None => r@.selected is None && r@.langs.len() == 0,
            },
    {
        match stored {
            Some((sel, langs)) => {
                let ghost ls = langs@;
                match Self::from_parts(sel, langs) {
                    Some(c) => {
                        assert forall|a: int, b: int| 0 <= a < b < ls.len() implies ls[a].0@ != ls[b].0@ by {
                            assert(c@.langs[a] == (ls[a].0@, ls[a].1));
                            assert(c@.langs[b] == (ls[b].0@, ls[b].1));
                        }
                        c
                    },
                    None => Self::new(),
                }
            },
            None => Self::new(),
        }
    }
}

} // verus!

//! The texts that clients are given in their language, and the cache of
//! what was assembled for each language.
use crate::ids::LanguageId;
use vstd::prelude::*;

verus! {

/// A language a client may choose.
#[derive(Debug)]
pub struct LanguageDto {
    pub language_id: LanguageId,
    pub name: String,
}

/// One translatable text in every language it has.
#[derive(Debug)]
pub struct TranslationsDto {
    pub translation_id: Option<String>,
    pub translated_text: Vec<(LanguageId, String)>,
    /// Sent even where the client has no English.
    pub bulktext: bool,
}

/// The texts, the policies, and the translations assembled per language.
pub struct TranslationActlet {
    privacy: String,
    terms: String,
    dtos: Vec<TranslationsDto>,
    /// Assembled translations, by language (and the English and default
    /// languages they were assembled with).
    cache: Vec<((LanguageId, LanguageId, LanguageId), Vec<(String, String)>)>,
    languages: Vec<LanguageDto>,
}

/// The text in language `l`: the first entry for it.
pub open spec fn text_in(entries: Seq<(LanguageId, String)>, l: LanguageId) -> Option<Seq<char>>
    decreases entries.len(),
{
    if entries.len() == 0 {
        None
    } else if entries[0].0 == l {
        Some(entries[0].1@)
    } else {
        text_in(entries.drop_first(), l)
    }
}

/// The entry a text gives a client of language `language`: none for a
/// non-bulk text when the language is English (the client has it); else
/// the text in the language (or, for bulk text, in the default language),
/// under the text's id (or its English text when it has no id), when both
/// exist.
pub open spec fn translation_entry(
    dto: TranslationsDto,
    language: LanguageId,
    english: LanguageId,
    default_language: LanguageId,
) -> Option<(Seq<char>, Seq<char>)> {
    if !(dto.bulktext || language != english) {
        None
    } else {
        let text = match text_in(dto.translated_text@, language) {
            Some(t) => Some(t),
            None => if dto.bulktext {
                text_in(dto.translated_text@, default_language)
            } else {
                None
            },
        };
        let id = match dto.translation_id {
            Some(i) => Some(i@),
            None => text_in(dto.translated_text@, english),
        };
        match (text, id) {
            (Some(t), Some(i)) => Some((i, t)),
            _ => None,
        }
    }
}

/// The entries of the texts, in order.
pub open spec fn translation_entries(
    dtos: Seq<TranslationsDto>,
    language: LanguageId,
    english: LanguageId,
    default_language: LanguageId,
) -> Seq<(Seq<char>, Seq<char>)>
    decreases dtos.len(),
{
    if dtos.len() == 0 {
        Seq::empty()
    } else {
        let rest = translation_entries(dtos.drop_last(), language, english, default_language);
        match translation_entry(dtos.last(), language, english, default_language) {
            Some(e) => rest.push(e),
            None => rest,
        }
    }
}

/// What a client of language `language` is sent: the texts' entries, then
/// the terms (`terms_md`) and the privacy policy (`privacy_md`).
pub open spec fn assembled(
    dtos: Seq<TranslationsDto>,
    terms: Seq<char>,
    privacy: Seq<char>,
    language: LanguageId,
    english: LanguageId,
    default_language: LanguageId,
) -> Seq<(Seq<char>, Seq<char>)> {
    translation_entries(dtos, language, english, default_language).push(("terms_md"@, terms)).push(
        ("privacy_md"@, privacy),
    )
}

/// The text pairs as values.
pub open spec fn pairs_view(v: Seq<(String, String)>) -> Seq<(Seq<char>, Seq<char>)> {
    v.map_values(|p: (String, String)| (p.0@, p.1@))
}

impl TranslationActlet {
    /// Every cached assembly is what would be assembled now.
    #[verifier::type_invariant]
    closed spec fn cache_current(&self) -> bool {
        forall|i: int|
            0 <= i < self.cache@.len() ==> pairs_view(#[trigger] self.cache@[i].1@) == assembled(
                self.dtos@,
                self.terms@,
                self.privacy@,
                self.cache@[i].0.0,
                self.cache@[i].0.1,
                self.cache@[i].0.2,
            )
    }

    /// The privacy policy.
    pub closed spec fn privacy_text(&self) -> Seq<char> {
        self.privacy@
    }

    /// The terms of service.
    pub closed spec fn terms_text(&self) -> Seq<char> {
        self.terms@
    }

    /// The translatable texts.
    pub closed spec fn texts(&self) -> Seq<TranslationsDto> {
        self.dtos@
    }

    /// The languages clients may choose.
    pub closed spec fn language_list(&self) -> Seq<LanguageDto> {
        self.languages@
    }

    /// How many languages have their translations assembled.
    pub closed spec fn cached(&self) -> nat {
        self.cache@.len()
    }
}

impl TranslationActlet {
    /// The languages clients may choose.
    pub fn languages(&self) -> (r: &Vec<LanguageDto>)
        ensures
            r@ == self.language_list(),
    {
        &self.languages
    }
}

impl Default for TranslationActlet {
    /// Placeholder policies, no texts, no languages and nothing cached.
    fn default() -> (r: Self)
        ensures
            r.privacy_text() == "Loading..."@,
            r.terms_text() == "Loading..."@,
            r.texts().len() == 0,
            r.cached() == 0,
            r.language_list().len() == 0,
    {
        TranslationActlet {
            privacy: String::from_str("Loading..."),
            terms: String::from_str("Loading..."),
            dtos: Vec::new(),
            cache: Vec::new(),
            languages: Vec::new(),
        }
    }
}

impl TranslationActlet {
    /// Replaces the privacy policy; what was assembled is forgotten.
    pub fn update_privacy(&mut self, privacy: String)
        ensures
            final(self).privacy_text() == privacy@,
            final(self).terms_text() == old(self).terms_text(),
            final(self).texts() == old(self).texts(),
            final(self).language_list() == old(self).language_list(),
            final(self).cached() == 0,
    {
        self.cache = Vec::new();
        self.privacy = privacy;
    }

    /// Replaces the terms of service; what was assembled is forgotten.
    pub fn update_terms(&mut self, terms: String)
        ensures
            final(self).terms_text() == terms@,
            final(self).privacy_text() == old(self).privacy_text(),
            final(self).texts() == old(self).texts(),
            final(self).language_list() == old(self).language_list(),
            final(self).cached() == 0,
    {
        self.cache = Vec::new();
        self.terms = terms;
    }

    /// Replaces the languages and the texts; what was assembled is
    /// forgotten.
    pub fn update(&mut self, languages: Vec<LanguageDto>, dtos: Vec<TranslationsDto>)
        ensures
            final(self).language_list() == languages@,
            final(self).texts() == dtos@,
            final(self).privacy_text() == old(self).privacy_text(),
            final(self).terms_text() == old(self).terms_text(),
            final(self).cached() == 0,
    {
        self.cache = Vec::new();
        self.languages = languages;
        self.dtos = dtos;
    }
}

/// The text of `entries` in language `l` (see `text_in`).
fn find_text(entries: &Vec<(LanguageId, String)>, l: LanguageId) -> (r: Option<&String>)
    ensures
        match r {
            Some(t) => text_in(entries@, l) == Some(t@),
            None => text_in(entries@, l) is None,
        },
{
    let mut i: usize = 0;
    proof {
        assert(entries@.subrange(0, entries@.len() as int) =~= entries@);
    }
    while i < entries.len()
        invariant
            i <= entries@.len(),
            text_in(entries@, l) == text_in(entries@.subrange(i as int, entries@.len() as int), l),
        decreases entries@.len() - i,
    {
        proof {
            let rest = entries@.subrange(i as int, entries@.len() as int);
            assert(rest[0] == entries@[i as int]);
            assert(rest.drop_first() =~= entries@.subrange(i + 1, entries@.len() as int));
        }
        if entries[i].0 == l {
            return Some(&entries[i].1);
        }
        i = i + 1;
    }
    proof {
        assert(entries@.subrange(i as int, entries@.len() as int) =~= Seq::<(LanguageId, String)>::empty());
    }
    None
}

/// A copy of the text pairs.
fn copy_pairs(v: &Vec<(String, String)>) -> (r: Vec<(String, String)>)
    ensures
        pairs_view(r@) == pairs_view(v@),
{
    let mut r: Vec<(String, String)> = Vec::new();
    let mut i: usize = 0;
    while i < v.len()
        invariant
            i <= v@.len(),
            pairs_view(r@) == pairs_view(v@.subrange(0, i as int)),
        decreases v@.len() - i,
    {
        let a = v[i].0.clone();
        let b = v[i].1.clone();
        let ghost prev = r@;
        r.push((a, b));
        proof {
            assert(pairs_view(r@) =~= pairs_view(prev).push((v@[i as int].0@, v@[i as int].1@)));
            assert(pairs_view(v@.subrange(0, i + 1)) =~= pairs_view(v@.subrange(0, i as int)).push(
                (v@[i as int].0@, v@[i as int].1@),
            ));
        }
        i = i + 1;
    }
    proof {
        assert(v@.subrange(0, v@.len() as int) =~= v@);
    }
    r
}

impl TranslationActlet {
    /// What a client of language `language` is sent (see `assembled`),
    /// assembled once per language and then taken from the cache.
    pub fn translations(&mut self, language: LanguageId, english: LanguageId, default_language: LanguageId) -> (r: Vec<
        (String, String),
    >)
        ensures
            pairs_view(r@) == assembled(
                old(self).texts(),
                old(self).terms_text(),
                old(self).privacy_text(),
                language,
                english,
                default_language,
            ),
            final(self).texts() == old(self).texts(),
            final(self).terms_text() == old(self).terms_text(),
            final(self).privacy_text() == old(self).privacy_text(),
            final(self).language_list() == old(self).language_list(),
    {
        proof {
            use_type_invariant(&*self);
        }
        let key = (language, english, default_language);
        let mut c: usize = 0;
        while c < self.cache.len()
            invariant
                c <= self.cache@.len(),
            decreases self.cache@.len() - c,
        {
            let k = self.cache[c].0;
            if k.0 == language && k.1 == english && k.2 == default_language {
                proof {
                    use_type_invariant(&*self);
                    assert(pairs_view(self.cache@[c as int].1@) == assembled(
                        self.dtos@,
                        self.terms@,
                        self.privacy@,
                        language,
                        english,
                        default_language,
                    ));
                }
                return copy_pairs(&self.cache[c].1);
            }
            c = c + 1;
        }
        let mut out: Vec<(String, String)> = Vec::new();
        let mut i: usize = 0;
        while i < self.dtos.len()
            invariant
                i <= self.dtos@.len(),
                pairs_view(out@) == translation_entries(self.dtos@.subrange(0, i as int), language, english, default_language),
            decreases self.dtos@.len() - i,
        {
            let dto = &self.dtos[i];
            proof {
                assert(self.dtos@.subrange(0, i + 1).drop_last() =~= self.dtos@.subrange(0, i as int));
                assert(self.dtos@.subrange(0, i + 1).last() == self.dtos@[i as int]);
            }
            if dto.bulktext || language != english {
                let text = match find_text(&dto.translated_text, language) {
                    Some(t) => Some(t),
                    None => if dto.bulktext {
                        find_text(&dto.translated_text, default_language)
                    } else {
                        None
                    },
                };
                let id = match &dto.translation_id {
                    Some(t) => Some(t),
                    None => find_text(&dto.translated_text, english),
                };
                match (text, id) {
                    (Some(t), Some(d)) => {
                        let ghost prev = out@;
                        out.push((d.clone(), t.clone()));
                        proof {
                            assert(pairs_view(out@) =~= pairs_view(prev).push((d@, t@)));
                        }
                    },
                    _ => {},
                }
            }
            i = i + 1;
        }
        proof {
            assert(self.dtos@.subrange(0, self.dtos@.len() as int) =~= self.dtos@);
        }
        let ghost entries = out@;
        out.push((String::from_str("terms_md"), self.terms.clone()));
        out.push((String::from_str("privacy_md"), self.privacy.clone()));
        proof {
            reveal_strlit("terms_md");
            reveal_strlit("privacy_md");
            assert(pairs_view(out@) =~= pairs_view(entries).push(("terms_md"@, self.terms@)).push(("privacy_md"@, self.privacy@)));
        }
        let kept = copy_pairs(&out);
        let mut cache = Vec::new();
        std::mem::swap(&mut cache, &mut self.cache);
        let ghost before = cache@;
        cache.push((key, kept));
        proof {
            assert forall|j: int| 0 <= j < cache@.len() implies pairs_view(#[trigger] cache@[j].1@) == assembled(
                self.dtos@,
                self.terms@,
                self.privacy@,
                cache@[j].0.0,
                cache@[j].0.1,
                cache@[j].0.2,
            ) by {
                if j < before.len() {
                    assert(cache@[j] == before[j]);
                }
            }
        }
        self.cache = cache;
        out
    }
}

} // verus!

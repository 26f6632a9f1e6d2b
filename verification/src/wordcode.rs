//! Word coding: hexadecimal strings as words of a dictionary, and back.
//!
//! A dictionary of `n` words codes groups of hexadecimal digits. A group is
//! as wide as the digits that the positions `0` to `n - 1` need, and stands
//! for the word at the position that its digits spell.

use crate::hex::{
    all_hex, digit_of, hex_digits, hex_value, is_hex_digit, lemma_hex_digits_read_back,
    lemma_hex_round_trip, lemma_hex_value_prefix, numbers_in, push_hex, upper_hex,
};
use crate::word_index::WordIndex;
use vstd::prelude::*;
use vstd::string::StringExecFns;

verus! {

broadcast use vstd::string::group_string_axioms;

/// The lower-case form of a string, as `str::to_lowercase` gives it.
pub uninterp spec fn lowercase_of(word: Seq<char>) -> Seq<char>;

/// Calls `str::to_lowercase`, which returns the lower-case equivalent of the
/// string as a new `String`. What that is for a given string is not spelled
/// out here: the result is only given its name.
#[verifier::external_body]
fn lowercase(word: &str) -> (lower: String)
    ensures
        lower@ == lowercase_of(word@),
{
    word.to_lowercase()
}

/// How words are brought to the form under which they are looked up.
#[derive(Clone, Copy, Debug, PartialEq, Eq, Structural)]
pub enum Normalizer {
    /// Words are compared in lower case.
    Lowercase,
    /// Words are compared as they are written.
    Verbatim,
}

impl Normalizer {
    /// The form under which `word` is looked up.
    pub open spec fn normal(self, word: Seq<char>) -> Seq<char> {
        match self {
            Normalizer::Lowercase => lowercase_of(word),
            Normalizer::Verbatim => word,
        }
    }

    /// Brings `word` to the form under which it is looked up.
    pub fn normalize(&self, word: &str) -> (form: String)
        ensures
            form@ == self.normal(word@),
    {
        match self {
            Normalizer::Lowercase => lowercase(word),
            Normalizer::Verbatim => String::from_str(word),
        }
    }
}

/// The strings of `words` as plain values.
pub open spec fn texts(words: Seq<String>) -> Seq<Seq<char>> {
    words.map_values(|word: String| word@)
}

/// The forms under which the words of a dictionary are looked up.
pub open spec fn normal_forms(normalizer: Normalizer, words: Seq<Seq<char>>) -> Seq<Seq<char>> {
    words.map_values(|word: Seq<char>| normalizer.normal(word))
}

/// How many hexadecimal digits a dictionary of `size` words codes per word:
/// the least number of digits in which every position can be written, and
/// none for a dictionary of one word or of no word.
pub open spec fn nibbles_for(size: nat) -> nat
    decreases size,
{
    if size <= 1 {
        0
    } else {
        1 + nibbles_for((size + 15) / 16)
    }
}

/// The position under which `form` is found: the last one that holds it.
pub open spec fn position_of(forms: Seq<Seq<char>>, form: Seq<char>) -> Option<nat>
    decreases forms.len(),
{
    if forms.len() == 0 {
        None
    } else if forms.last() == form {
        Some((forms.len() - 1) as nat)
    } else {
        position_of(forms.drop_last(), form)
    }
}

/// A position that was found holds the form that was looked for.
pub proof fn lemma_position_found(forms: Seq<Seq<char>>, form: Seq<char>)
    ensures
        match position_of(forms, form) {
            Some(position) => position < forms.len() && forms[position as int] == form,
            None => !forms.contains(form),
        },
    decreases forms.len(),
{
    if forms.len() > 0 && forms.last() != form {
        lemma_position_found(forms.drop_last(), form);
        if forms.contains(form) {
            let i = choose|i: int| 0 <= i < forms.len() && forms[i] == form;
            assert(forms.drop_last()[i] == form);
        }
    }
}

/// The digits never outnumber the words.
pub proof fn lemma_nibbles_bound(size: nat)
    ensures
        nibbles_for(size) <= size,
    decreases size,
{
    if size > 1 {
        lemma_nibbles_bound((size + 15) / 16);
    }
}

/// The width is the least in which every position can be written: the
/// positions of `size` words fit in it, and in one digit less they do not.
pub proof fn lemma_nibbles_least(size: nat)
    requires
        size >= 1,
    ensures
        size <= numbers_in(nibbles_for(size)),
        nibbles_for(size) > 0 ==> numbers_in((nibbles_for(size) - 1) as nat) < size,
    decreases size,
{
    if size > 1 {
        let rest = (size + 15) / 16;
        lemma_nibbles_least(rest);
        let narrower = nibbles_for(rest);
        assert(nibbles_for(size) == narrower + 1);
        assert(numbers_in(narrower + 1) == 16 * numbers_in(narrower));
        if narrower > 0 {
            assert(numbers_in(narrower) == 16 * numbers_in((narrower - 1) as nat));
        } else {
            assert(numbers_in(0) == 1);
        }
    } else {
        assert(numbers_in(0) == 1);
    }
}

/// Every position of a dictionary of two words or more is written in
/// exactly as many digits as the dictionary codes per word, and is read
/// back from them.
pub proof fn lemma_position_digits(size: nat, position: nat)
    requires
        size >= 2,
        position < size,
    ensures
        nibbles_for(size) >= 1,
        hex_digits(position, nibbles_for(size)).len() == nibbles_for(size),
        all_hex(hex_digits(position, nibbles_for(size))),
        hex_value(hex_digits(position, nibbles_for(size))) == position,
{
    lemma_nibbles_least(size);
    lemma_hex_digits_read_back(position, nibbles_for(size));
}

/// Computes how many hexadecimal digits a dictionary of `size` words codes
/// per word.
pub fn nibbles_per_word_for(size: usize) -> (nibbles: usize)
    ensures
        nibbles == nibbles_for(size as nat),
{
    let mut left: usize = size;
    let mut nibbles: usize = 0;
    proof {
        lemma_nibbles_bound(size as nat);
    }
    while left > 1
        invariant
            nibbles + nibbles_for(left as nat) == nibbles_for(size as nat),
            nibbles_for(size as nat) <= size,
        decreases left,
    {
        assert((left - 1) / 16 + 1 == (left + 15) / 16);
        left = (left - 1) / 16 + 1;
        nibbles += 1;
    }
    nibbles
}

/// How many bytes a string takes.
pub open spec fn byte_len(text: Seq<char>) -> nat {
    vstd::utf8::encode_utf8(text).len()
}

/// The `i`-th group of `width` digits of `hex`.
pub open spec fn group(hex: Seq<char>, width: nat, i: int) -> Seq<char> {
    hex.subrange(i * width, i * width + width)
}

/// Whether every group of `hex` spells a position of a dictionary of `size`
/// words.
pub open spec fn groups_in_range(size: nat, width: nat, hex: Seq<char>) -> bool {
    forall|i: int| 0 <= i < hex.len() / width ==> hex_value(#[trigger] group(hex, width, i)) < size
}

/// Whether `hex` can be handed to a coding of `size` words and groups of
/// `width` digits: there are digits to a group, and a string that divides
/// into groups holds hexadecimal digits only, each group spelling a position
/// of the dictionary.
pub open spec fn encodable(size: nat, width: nat, hex: Seq<char>) -> bool {
    width > 0 && (byte_len(hex) % width == 0 ==> all_hex(hex) && groups_in_range(size, width, hex))
}

/// The words that `hex` is coded as: for each group the word at the position
/// it spells.
pub open spec fn encoded(words: Seq<Seq<char>>, width: nat, hex: Seq<char>) -> Seq<Seq<char>> {
    Seq::new(hex.len() / width, |i: int| words[hex_value(group(hex, width, i)) as int])
}

/// What the words `given`, in the form under which they are looked up, are
/// decoded to: for each its position among `forms` in `width` digits; or
/// the index of the first of them that is not found.
pub open spec fn decoded(forms: Seq<Seq<char>>, width: nat, given: Seq<Seq<char>>) -> Result<
    Seq<char>,
    nat,
>
    decreases given.len(),
{
    if given.len() == 0 {
        Ok(Seq::empty())
    } else {
        match decoded(forms, width, given.drop_last()) {
            Err(at) => Err(at),
            Ok(hex) => match position_of(forms, given.last()) {
                Some(position) => Ok(hex + hex_digits(position, width)),
                None => Err((given.len() - 1) as nat),
            },
        }
    }
}

/// The failure of a string that does not divide into groups.
pub open spec fn length_error() -> Seq<char> {
    "Hex string length is not a multiple of the bits-per-word constant."@
}

/// The failure of a word that the dictionary `name` does not hold.
pub open spec fn unknown_word_error(name: Seq<char>, word: Seq<char>) -> Seq<char> {
    "Received a word that is not in the dictionary '"@ + name + "': "@ + word
}

/// Where groups begin and end in a string that divides into them.
proof fn lemma_group_bounds(total: nat, width: nat, i: nat)
    requires
        width > 0,
        total % width == 0,
        i * width <= total,
    ensures
        i <= total / width,
        i * width < total ==> i < total / width && i * width + width <= total,
        i * width == total ==> i == total / width,
{
    vstd::arithmetic::div_mod::lemma_fundamental_div_mod(total as int, width as int);
    let groups = total / width;
    assert(total == width * groups);
    assert(i <= groups) by (nonlinear_arith)
        requires
            i * width <= width * groups,
            width > 0,
    ;
    if i * width < total {
        assert(i < groups) by (nonlinear_arith)
            requires
                i * width < width * groups,
                width > 0,
        ;
        assert(i * width + width <= width * groups) by (nonlinear_arith)
            requires
                i < groups,
                width > 0,
        ;
    }
    if i * width == total {
        assert(i == groups) by (nonlinear_arith)
            requires
                i * width == width * groups,
                width > 0,
        ;
    }
}

/// Hexadecimal digits are ASCII characters.
pub proof fn lemma_hex_is_ascii(hex: Seq<char>)
    requires
        all_hex(hex),
    ensures
        vstd::utf8::is_ascii_chars(hex),
        byte_len(hex) == hex.len(),
        forall|i: int|
            0 <= i < hex.len() ==> '\0' <= #[trigger] hex[i] <= '\u{7f}' && hex[i] as u8
                == vstd::utf8::encode_utf8(hex)[i],
{
    assert forall|i: int| 0 <= i < hex.len() implies '\0' <= #[trigger] hex[i] <= '\u{7f}' by {
        assert(is_hex_digit(hex[i]));
    }
    vstd::utf8::is_ascii_chars_encode_utf8(hex);
}

/// Once a word is not found, the words behind it change nothing.
proof fn lemma_decoded_failure_stays(
    forms: Seq<Seq<char>>,
    width: nat,
    given: Seq<Seq<char>>,
    upto: int,
)
    requires
        0 <= upto <= given.len(),
        decoded(forms, width, given.take(upto)) is Err,
    ensures
        decoded(forms, width, given) == decoded(forms, width, given.take(upto)),
    decreases given.len() - upto,
{
    if upto < given.len() {
        assert(given.take(upto + 1).drop_last() == given.take(upto));
        lemma_decoded_failure_stays(forms, width, given, upto + 1);
    } else {
        assert(given.take(upto) == given);
    }
}

/// Among forms that are all different, each is found at its own position.
pub proof fn lemma_position_unique(forms: Seq<Seq<char>>, position: int)
    requires
        forms.no_duplicates(),
        0 <= position < forms.len(),
    ensures
        position_of(forms, forms[position]) == Some(position as nat),
{
    lemma_position_found(forms, forms[position]);
}

/// Reads the group of `width` digits that begins at `from`, if it spells a
/// number below `limit`.
fn group_position(
    bytes: &[u8],
    Ghost(digits): Ghost<Seq<char>>,
    from: usize,
    width: usize,
    limit: usize,
) -> (position: Option<usize>)
    requires
        width > 0,
        digits.len() == bytes@.len(),
        forall|k: int|
            0 <= k < digits.len() ==> '\0' <= #[trigger] digits[k] <= '\u{7f}' && bytes@[k]
                == digits[k] as u8,
        from + width <= bytes@.len(),
    ensures
        match position {
            Some(value) => all_hex(digits.subrange(from as int, from + width)) && value
                == hex_value(digits.subrange(from as int, from + width)) && value < limit,
            None => !all_hex(digits.subrange(from as int, from + width)) || hex_value(
                digits.subrange(from as int, from + width),
            ) >= limit,
        },
{
    let ghost part = digits.subrange(from as int, from + width);
    let total = bytes.len();
    let mut value: usize = 0;
    let mut j: usize = 0;
    while j < width
        invariant
            j <= width,
            total == bytes@.len(),
            from + width <= total,
            digits.len() == bytes@.len(),
            part == digits.subrange(from as int, from + width),
            forall|k: int|
                0 <= k < digits.len() ==> '\0' <= #[trigger] digits[k] <= '\u{7f}' && bytes@[k]
                    == digits[k] as u8,
            all_hex(part.take(j as int)),
            value == hex_value(part.take(j as int)),
            j > 0 ==> value < limit,
        decreases width - j,
    {
        let byte = bytes[from + j];
        assert(part[j as int] == digits[from + j]);
        assert(byte as char == part[j as int]);
        let digit = match digit_of(byte) {
            Some(digit) => digit,
            None => {
                assert(!is_hex_digit(part[j as int]));
                return None;
            },
        };
        let next: u128 = (value as u128) * 16 + digit as u128;
        proof {
            let longer = part.take(j + 1);
            assert(longer.drop_last() == part.take(j as int));
            assert(longer.last() == part[j as int]);
            assert(hex_value(longer) == next);
            assert(longer + part.skip(j + 1) == part);
            lemma_hex_value_prefix(longer, part.skip(j + 1));
            assert forall|k: int| 0 <= k < longer.len() implies is_hex_digit(
                #[trigger] longer[k],
            ) by {
                if k < j {
                    assert(part.take(j as int)[k] == longer[k]);
                }
            }
        }
        if next >= limit as u128 {
            return None;
        }
        value = next as usize;
        j += 1;
    }
    assert(part.take(j as int) == part);
    Some(value)
}

/// Whether no two of `forms` are the same.
pub fn all_distinct(forms: &Vec<String>) -> (distinct: bool)
    ensures
        distinct == texts(forms@).no_duplicates(),
{
    let mut i: usize = 0;
    while i < forms.len()
        invariant
            i <= forms@.len(),
            forall|a: int, b: int| 0 <= a < b < i ==> forms@[a]@ != forms@[b]@,
        decreases forms@.len() - i,
    {
        let mut j: usize = 0;
        while j < i
            invariant
                j <= i,
                i < forms@.len(),
                forall|a: int| 0 <= a < j ==> forms@[a]@ != forms@[i as int]@,
            decreases i - j,
        {
            if forms[j] == forms[i] {
                assert(texts(forms@)[j as int] == texts(forms@)[i as int]);
                return false;
            }
            j += 1;
        }
        i += 1;
    }
    assert forall|a: int, b: int|
        0 <= a < texts(forms@).len() && 0 <= b < texts(forms@).len() && a != b implies texts(
        forms@,
    )[a] != texts(forms@)[b] by {
        if a < b {
            assert(forms@[a]@ != forms@[b]@);
        } else {
            assert(forms@[b]@ != forms@[a]@);
        }
    }
    true
}

/// A dictionary of words with the coding it defines.
pub struct WordCode {
    dict_name: String,
    words: Vec<String>,
    nibbles_per_word: usize,
    normalizer: Normalizer,
    /// Whether the forms were handed in rather than worked out here.
    forms_given: bool,
    /// The forms under which the words are looked up, with their positions,
    /// once they are known.
    word_positions: Option<WordIndex>,
}

impl WordCode {
    #[verifier::type_invariant]
    spec fn consistent(self) -> bool {
        &&& self.nibbles_per_word == nibbles_for(self.words@.len())
        &&& self.forms_given ==> self.normalizer == Normalizer::Verbatim
        &&& match self.word_positions {
            Some(index) => index.forms().len() == self.words@.len() && (!self.forms_given
                ==> index.forms() == normal_forms(self.normalizer, texts(self.words@))),
            None => !self.forms_given,
        }
    }

    /// The name of the dictionary.
    pub closed spec fn name(&self) -> Seq<char> {
        self.dict_name@
    }

    /// The words, in their order.
    pub closed spec fn dictionary(&self) -> Seq<Seq<char>> {
        texts(self.words@)
    }

    /// How words are compared.
    pub closed spec fn comparison(&self) -> Normalizer {
        self.normalizer
    }

    /// How many hexadecimal digits stand for one word.
    pub open spec fn width(&self) -> nat {
        nibbles_for(self.dictionary().len())
    }

    /// The forms under which the words are looked up, one for each word:
    /// those that were handed in, or else the words as the normalizer forms
    /// them.
    pub closed spec fn forms(&self) -> Seq<Seq<char>> {
        if self.forms_given && self.word_positions is Some {
            self.word_positions->Some_0.forms()
        } else {
            normal_forms(self.normalizer, texts(self.words@))
        }
    }

    /// Whether the index is built: the forms under which the words are
    /// looked up are at hand, and need not be worked out at the next lookup.
    pub closed spec fn indexed(&self) -> bool {
        self.word_positions is Some
    }

    /// A coding over `words`. Without a normalizer, words are compared in
    /// lower case. The index is not built yet: the first lookup builds it.
    pub fn new(dict_name: String, words: Vec<String>, normalizer: Option<Normalizer>) -> (code:
        WordCode)
        ensures
            code.name() == dict_name@,
            code.dictionary() == texts(words@),
            code.comparison() == match normalizer {
                Some(chosen) => chosen,
                None => Normalizer::Lowercase,
            },
            code.forms() == normal_forms(code.comparison(), code.dictionary()),
            !code.indexed(),
    {
        let nibbles_per_word = nibbles_per_word_for(words.len());
        let normalizer = match normalizer {
            Some(chosen) => chosen,
            None => Normalizer::Lowercase,
        };
        WordCode {
            dict_name,
            words,
            nibbles_per_word,
            normalizer,
            forms_given: false,
            word_positions: None,
        }
    }

    /// A coding over `words` that are looked up under `forms`, one for each
    /// word: what a function of the caller's made of the words. The words
    /// handed to `check` and `decode` are then compared as they are handed
    /// in: the caller applies its function to them first. Without a form for
    /// each word there is no coding.
    pub fn with_forms(dict_name: String, words: Vec<String>, forms: Vec<String>) -> (code: Option<
        WordCode,
    >)
        ensures
            code is Some <==> forms@.len() == words@.len(),
            code matches Some(code) ==> {
                &&& code.name() == dict_name@
                &&& code.dictionary() == texts(words@)
                &&& code.comparison() == Normalizer::Verbatim
                &&& code.forms() == texts(forms@)
                &&& code.indexed()
            },
    {
        if forms.len() != words.len() {
            return None;
        }
        let nibbles_per_word = nibbles_per_word_for(words.len());
        Some(
            WordCode {
                dict_name,
                words,
                nibbles_per_word,
                normalizer: Normalizer::Verbatim,
                forms_given: true,
                word_positions: Some(WordIndex::build(forms)),
            },
        )
    }

    /// The name of the dictionary.
    pub fn dict_name(&self) -> (name: &String)
        ensures
            name@ == self.name(),
    {
        &self.dict_name
    }

    /// The words of the dictionary, in their order.
    pub fn words(&self) -> (words: &Vec<String>)
        ensures
            texts(words@) == self.dictionary(),
    {
        &self.words
    }

    /// How many hexadecimal digits stand for one word.
    pub fn nibbles_per_word(&self) -> (nibbles: usize)
        ensures
            nibbles == self.width(),
    {
        proof {
            use_type_invariant(self);
        }
        self.nibbles_per_word
    }

    /// Works out, once, the forms under which the words are looked up, and
    /// gathers their positions.
    fn fill_word_positions(&mut self)
        ensures
            final(self).name() == old(self).name(),
            final(self).dictionary() == old(self).dictionary(),
            final(self).comparison() == old(self).comparison(),
            final(self).forms() == old(self).forms(),
            final(self).indexed(),
    {
        proof {
            use_type_invariant(&*self);
        }
        if self.word_positions.is_none() {
            let mut forms: Vec<String> = Vec::new();
            let mut i: usize = 0;
            while i < self.words.len()
                invariant
                    i <= self.words@.len(),
                    forms@.len() == i,
                    forall|j: int|
                        0 <= j < i ==> (#[trigger] forms@[j])@ == self.normalizer.normal(
                            self.words@[j]@,
                        ),
                decreases self.words@.len() - i,
            {
                forms.push(self.normalizer.normalize(self.words[i].as_str()));
                i += 1;
            }
            assert(texts(forms@) =~= normal_forms(self.normalizer, texts(self.words@)));
            self.word_positions = Some(WordIndex::build(forms));
        }
    }

    /// Whether `word` is a word of the dictionary, compared as the
    /// normalizer says.
    pub fn check(&mut self, word: &str) -> (known: bool)
        ensures
            known == old(self).forms().contains(old(self).comparison().normal(word@)),
            final(self).name() == old(self).name(),
            final(self).dictionary() == old(self).dictionary(),
            final(self).comparison() == old(self).comparison(),
            final(self).forms() == old(self).forms(),
            final(self).indexed(),
    {
        self.fill_word_positions();
        proof {
            use_type_invariant(&*self);
        }
        let form = self.normalizer.normalize(word);
        proof {
            lemma_position_found(self.forms(), form@);
        }
        match &self.word_positions {
            Some(index) => index.position(&form).is_some(),
            None => false,
        }
    }

    /// Whether no two words of the dictionary are looked up under the same
    /// form. Of such a dictionary, decoding gives back what was coded.
    pub fn is_unambiguous(&mut self) -> (distinct: bool)
        ensures
            distinct == old(self).forms().no_duplicates(),
            final(self).name() == old(self).name(),
            final(self).dictionary() == old(self).dictionary(),
            final(self).comparison() == old(self).comparison(),
            final(self).forms() == old(self).forms(),
            final(self).indexed(),
    {
        self.fill_word_positions();
        proof {
            use_type_invariant(&*self);
        }
        match &self.word_positions {
            Some(index) => all_distinct(index.all_forms()),
            None => true,
        }
    }

    /// Whether `hex` can be handed to `encode`.
    pub fn can_encode(&self, hex: &str) -> (fit: bool)
        ensures
            fit == encodable(self.dictionary().len(), self.width(), hex@),
    {
        proof {
            use_type_invariant(self);
        }
        let width = self.nibbles_per_word;
        if width == 0 {
            return false;
        }
        let bytes = hex.as_bytes();
        if bytes.len() % width != 0 {
            return true;
        }
        if !hex.is_ascii() {
            proof {
                if all_hex(hex@) {
                    lemma_hex_is_ascii(hex@);
                }
            }
            return false;
        }
        proof {
            vstd::utf8::is_ascii_chars_encode_utf8(hex@);
        }
        let mut from: usize = 0;
        let ghost mut i: nat = 0;
        while from < bytes.len()
            invariant
                width > 0,
                width == nibbles_for(self.words@.len()),
                byte_len(hex@) == bytes@.len(),
                bytes@.len() == hex@.len(),
                bytes@.len() % (width as nat) == 0,
                forall|k: int|
                    0 <= k < hex@.len() ==> '\0' <= #[trigger] hex@[k] <= '\u{7f}' && bytes@[k]
                        == hex@[k] as u8,
                from == i * width,
                from <= bytes@.len(),
                all_hex(hex@.take(from as int)),
                forall|j: int|
                    0 <= j < i ==> hex_value(#[trigger] group(hex@, width as nat, j))
                        < self.words@.len(),
            decreases bytes@.len() - from,
        {
            proof {
                lemma_group_bounds(bytes@.len(), width as nat, i);
            }
            let ghost part = group(hex@, width as nat, i as int);
            match group_position(bytes, Ghost(hex@), from, width, self.words.len()) {
                Some(_) => {},
                None => {
                    proof {
                        assert(part == hex@.subrange(from as int, from + width));
                        if all_hex(hex@) {
                            assert forall|k: int| 0 <= k < part.len() implies is_hex_digit(
                                #[trigger] part[k],
                            ) by {
                                assert(part[k] == hex@[from + k]);
                            }
                            assert(all_hex(part));
                            assert(hex_value(group(hex@, width as nat, i as int))
                                >= self.dictionary().len());
                            assert(0 <= i < hex@.len() / (width as nat));
                        }
                        assert(byte_len(hex@) % (width as nat) == 0);
                    }
                    return false;
                },
            }
            proof {
                assert forall|k: int| 0 <= k < from + width implies is_hex_digit(
                    #[trigger] hex@.take(from + width)[k],
                ) by {
                    if k < from {
                        assert(hex@.take(from as int)[k] == hex@[k]);
                    } else {
                        assert(part[k - from] == hex@[k]);
                    }
                }
                assert((i + 1) * width == from + width) by (nonlinear_arith)
                    requires
                        from == i * width,
                ;
                i = i + 1;
            }
            from += width;
        }
        proof {
            lemma_group_bounds(bytes@.len(), width as nat, i);
            assert(hex@.take(from as int) == hex@);
        }
        true
    }

    /// Codes `hex` as words: for each group of digits the word at the
    /// position that the group spells. A string that does not divide into
    /// groups is refused.
    pub fn encode(&self, hex: &str) -> (coded: Result<Vec<String>, String>)
        requires
            encodable(self.dictionary().len(), self.width(), hex@),
        ensures
            match coded {
                Ok(words) => byte_len(hex@) % self.width() == 0 && texts(words@) == encoded(
                    self.dictionary(),
                    self.width(),
                    hex@,
                ),
                Err(failure) => byte_len(hex@) % self.width() != 0 && failure@ == length_error(),
            },
    {
        proof {
            use_type_invariant(self);
        }
        let width = self.nibbles_per_word;
        let bytes = hex.as_bytes();
        if bytes.len() % width != 0 {
            return Err(
                String::from_str(
                    "Hex string length is not a multiple of the bits-per-word constant.",
                ),
            );
        }
        proof {
            lemma_hex_is_ascii(hex@);
        }
        let mut words: Vec<String> = Vec::new();
        let mut from: usize = 0;
        while from < bytes.len()
            invariant
                width > 0,
                width == self.width(),
                bytes@.len() == hex@.len(),
                bytes@.len() % (width as nat) == 0,
                forall|k: int|
                    0 <= k < hex@.len() ==> '\0' <= #[trigger] hex@[k] <= '\u{7f}' && bytes@[k]
                        == hex@[k] as u8,
                groups_in_range(self.words@.len(), width as nat, hex@),
                all_hex(hex@),
                from == words@.len() * width,
                from <= bytes@.len(),
                forall|j: int|
                    0 <= j < words@.len() ==> (#[trigger] words@[j])@ == self.words@[hex_value(
                        group(hex@, width as nat, j),
                    ) as int]@,
            decreases bytes@.len() - from,
        {
            let ghost i = words@.len();
            proof {
                lemma_group_bounds(bytes@.len(), width as nat, i);
            }
            let ghost part = group(hex@, width as nat, i as int);
            assert(hex_value(part) < self.words@.len());
            assert forall|k: int| 0 <= k < part.len() implies is_hex_digit(#[trigger] part[k]) by {
                assert(part[k] == hex@[from + k]);
            }
            match group_position(bytes, Ghost(hex@), from, width, self.words.len()) {
                Some(position) => {
                    words.push(self.words[position].clone());
                },
                None => {
                    assert(false);
                },
            }
            proof {
                assert((i + 1) * width == from + width) by (nonlinear_arith)
                    requires
                        from == i * width,
                ;
            }
            from += width;
        }
        proof {
            lemma_group_bounds(bytes@.len(), width as nat, words@.len());
            assert(texts(words@) =~= encoded(self.dictionary(), self.width(), hex@));
        }
        Ok(words)
    }

    /// Decodes `words` to the hexadecimal string they stand for: for each
    /// word its position in the dictionary, in upper-case digits. The first
    /// word that the dictionary does not hold is named in the failure.
    pub fn decode(&mut self, words: &[String]) -> (plain: Result<String, String>)
        ensures
            final(self).name() == old(self).name(),
            final(self).dictionary() == old(self).dictionary(),
            final(self).comparison() == old(self).comparison(),
            final(self).forms() == old(self).forms(),
            final(self).indexed(),
            match decoded(
                old(self).forms(),
                old(self).width(),
                normal_forms(old(self).comparison(), texts(words@)),
            ) {
                Ok(hex) => plain is Ok && plain->Ok_0@ == hex,
                Err(at) => at < words@.len() && plain is Err && plain->Err_0@
                    == unknown_word_error(old(self).name(), words@[at as int]@),
            },
    {
        self.fill_word_positions();
        proof {
            use_type_invariant(&*self);
        }
        let width = self.nibbles_per_word;
        let ghost given = normal_forms(self.normalizer, texts(words@));
        let ghost forms = self.forms();
        let mut result = String::new();
        let mut i: usize = 0;
        assert(given.take(0) == Seq::<Seq<char>>::empty());
        while i < words.len()
            invariant
                i <= words@.len(),
                given == normal_forms(self.normalizer, texts(words@)),
                forms == self.forms(),
                width == nibbles_for(self.words@.len()),
                self.name() == old(self).name(),
                self.dictionary() == old(self).dictionary(),
                self.comparison() == old(self).comparison(),
                self.forms() == old(self).forms(),
                self.indexed(),
                match self.word_positions {
                    Some(index) => index.forms() == forms,
                    None => false,
                },
                decoded(forms, width as nat, given.take(i as int)) == Ok::<Seq<char>, nat>(
                    result@,
                ),
            decreases words@.len() - i,
        {
            let form = self.normalizer.normalize(words[i].as_str());
            assert(given.take(i + 1).drop_last() == given.take(i as int));
            assert(given.take(i + 1).last() == form@);
            let found = match &self.word_positions {
                Some(index) => index.position(&form),
                None => None,
            };
            match found {
                Some(position) => {
                    push_hex(&mut result, position as u64, width);
                },
                None => {
                    proof {
                        lemma_decoded_failure_stays(forms, width as nat, given, i + 1);
                    }
                    let mut failure = String::from_str(
                        "Received a word that is not in the dictionary '",
                    );
                    failure.append(self.dict_name.as_str());
                    failure.append("': ");
                    failure.append(words[i].as_str());
                    return Err(failure);
                },
            }
            i += 1;
        }
        assert(given.take(i as int) == given);
        Ok(result)
    }
}

/// Decoding what was coded gives the string back, its letters in upper case.
/// This holds of a string of hexadecimal digits that divides into groups,
/// each of which spells a position of the dictionary, and of a dictionary in
/// which no two words are looked up under the same form.
pub proof fn lemma_decode_encode(normalizer: Normalizer, words: Seq<Seq<char>>, hex: Seq<char>)
    requires
        normal_forms(normalizer, words).no_duplicates(),
        nibbles_for(words.len()) > 0,
        all_hex(hex),
        hex.len() % nibbles_for(words.len()) == 0,
        groups_in_range(words.len(), nibbles_for(words.len()), hex),
    ensures
        decoded(
            normal_forms(normalizer, words),
            nibbles_for(words.len()),
            normal_forms(normalizer, encoded(words, nibbles_for(words.len()), hex)),
        ) == Ok::<Seq<char>, nat>(upper_hex(hex)),
{
    let width = nibbles_for(words.len());
    let groups = hex.len() / width;
    lemma_decode_encode_upto(normalizer, words, hex, groups);
    let given = normal_forms(normalizer, encoded(words, width, hex));
    assert(given.take(groups as int) == given);
    lemma_group_bounds(hex.len(), width, groups);
    vstd::arithmetic::div_mod::lemma_fundamental_div_mod(hex.len() as int, width as int);
    assert(groups * width == width * groups) by (nonlinear_arith);
    assert(hex.take((groups * width) as int) == hex);
}

/// The same of the first `count` groups and the words they are coded as.
proof fn lemma_decode_encode_upto(
    normalizer: Normalizer,
    words: Seq<Seq<char>>,
    hex: Seq<char>,
    count: nat,
)
    requires
        normal_forms(normalizer, words).no_duplicates(),
        nibbles_for(words.len()) > 0,
        all_hex(hex),
        hex.len() % nibbles_for(words.len()) == 0,
        groups_in_range(words.len(), nibbles_for(words.len()), hex),
        count <= hex.len() / nibbles_for(words.len()),
    ensures
        count * nibbles_for(words.len()) <= hex.len(),
        decoded(
            normal_forms(normalizer, words),
            nibbles_for(words.len()),
            normal_forms(normalizer, encoded(words, nibbles_for(words.len()), hex)).take(
                count as int,
            ),
        ) == Ok::<Seq<char>, nat>(upper_hex(hex.take((count * nibbles_for(words.len())) as int))),
    decreases count,
{
    let width = nibbles_for(words.len());
    let forms = normal_forms(normalizer, words);
    let given = normal_forms(normalizer, encoded(words, width, hex));
    vstd::arithmetic::div_mod::lemma_fundamental_div_mod(hex.len() as int, width as int);
    assert(count * width <= width * (hex.len() / width)) by (nonlinear_arith)
        requires
            count <= hex.len() / width,
            width > 0,
    ;
    if count == 0 {
        assert(0 * width == 0);
        assert(given.take(0) =~= Seq::<Seq<char>>::empty());
        assert(upper_hex(hex.take(0)) =~= Seq::<char>::empty());
    } else {
        let before = (count - 1) as nat;
        lemma_decode_encode_upto(normalizer, words, hex, before);
        assert(count * width == before * width + width) by (nonlinear_arith)
            requires
                count == before + 1,
        ;
        let part = group(hex, width, before as int);
        let position = hex_value(part);
        assert(position < words.len());
        assert(given.take(count as int).drop_last() == given.take(before as int));
        assert(given.take(count as int).last() == forms[position as int]);
        lemma_position_unique(forms, position as int);
        assert forall|k: int| 0 <= k < part.len() implies is_hex_digit(#[trigger] part[k]) by {
            assert(part[k] == hex[before * width + k]);
        }
        lemma_hex_round_trip(part);
        assert(upper_hex(hex.take((before * width) as int)) + upper_hex(part) =~= upper_hex(
            hex.take((count * width) as int),
        ));
    }
}

/// Of words that are compared as they are written, the forms are the
/// words themselves.
pub proof fn lemma_verbatim_forms(words: Seq<Seq<char>>)
    ensures
        normal_forms(Normalizer::Verbatim, words) == words,
{
    assert(normal_forms(Normalizer::Verbatim, words) =~= words);
}

/// Coding what was decoded gives the words back, in the forms under which
/// they were looked up: the string that words of a dictionary of two words
/// or more decode to divides into groups, one for each word, and each group
/// spells the position at which its word was found.
pub proof fn lemma_encode_decode(forms: Seq<Seq<char>>, given: Seq<Seq<char>>)
    requires
        forms.len() >= 2,
        decoded(forms, nibbles_for(forms.len()), given) is Ok,
    ensures
        ({
            let width = nibbles_for(forms.len());
            let hex = decoded(forms, width, given)->Ok_0;
            &&& width >= 1
            &&& hex.len() == given.len() * width
            &&& hex.len() % width == 0
            &&& hex.len() / width == given.len()
            &&& all_hex(hex)
            &&& groups_in_range(forms.len(), width, hex)
            &&& forall|i: int|
                0 <= i < given.len() ==> position_of(forms, #[trigger] given[i]) == Some(
                    hex_value(group(hex, width, i)),
                )
            &&& encoded(forms, width, hex) == given
        }),
    decreases given.len(),
{
    let width = nibbles_for(forms.len());
    let hex = decoded(forms, width, given)->Ok_0;
    lemma_position_digits(forms.len(), 0);
    if given.len() == 0 {
        assert(0 * width == 0);
        assert(encoded(forms, width, hex) =~= given);
    } else {
        let count = given.len() as int;
        let earlier = given.drop_last();
        let front = decoded(forms, width, earlier)->Ok_0;
        lemma_encode_decode(forms, earlier);
        lemma_position_found(forms, given.last());
        let position = position_of(forms, given.last())->Some_0;
        let digits = hex_digits(position, width);
        lemma_position_digits(forms.len(), position);
        assert(hex == front + digits);
        assert(count * width == (count - 1) * width + width) by (nonlinear_arith);
        assert(hex.len() == count * width);
        vstd::arithmetic::div_mod::lemma_div_multiples_vanish(count, width as int);
        vstd::arithmetic::div_mod::lemma_mod_multiples_basic(count, width as int);
        assert(hex.len() / width == count);
        assert forall|k: int| 0 <= k < hex.len() implies is_hex_digit(#[trigger] hex[k]) by {
            if k < front.len() {
                assert(hex[k] == front[k]);
            } else {
                assert(hex[k] == digits[k - front.len()]);
            }
        }
        assert forall|i: int| 0 <= i < count implies position_of(forms, #[trigger] given[i])
            == Some(hex_value(group(hex, width, i))) && hex_value(group(hex, width, i))
            < forms.len() by {
            if i < count - 1 {
                assert(i * width + width <= (count - 1) * width) by (nonlinear_arith)
                    requires
                        0 <= i < count - 1,
                        width >= 1,
                ;
                assert(0 <= i * width) by (nonlinear_arith)
                    requires
                        0 <= i,
                ;
                assert(group(hex, width, i) =~= group(front, width, i));
                assert(given[i] == earlier[i]);
                lemma_position_found(forms, given[i]);
            } else {
                assert(group(hex, width, i) =~= digits);
            }
        }
        assert forall|i: int| 0 <= i < hex.len() / width implies hex_value(
            #[trigger] group(hex, width, i),
        ) < forms.len() by {
            assert(position_of(forms, given[i]) == Some(hex_value(group(hex, width, i))));
        }
        assert forall|i: int| 0 <= i < count implies encoded(forms, width, hex)[i]
            == #[trigger] given[i] by {
            lemma_position_found(forms, given[i]);
        }
        assert(encoded(forms, width, hex) =~= given);
    }
}

} // verus!

//! Users of the service, their roles, and the rules for registering and
//! signing in: which e-mail addresses and passwords are accepted, and how a
//! sign-in attempt is judged.

use vstd::prelude::*;

use vstd::string::StringSliceAdditionalSpecFns;

use crate::text::{lemma_text_order, text_less};

verus! {

/// How a user signed up.
#[derive(Clone, Copy, Debug, PartialEq, Eq, Structural)]
pub enum RegistrationType {
    YandexID,
    Default,
}

impl Default for RegistrationType {
    fn default() -> (r: Self)
        ensures
            r == RegistrationType::Default,
    {
        RegistrationType::Default
    }
}

/// What a user may do.
#[derive(Clone, Copy, Debug, PartialEq, Eq, Structural)]
pub enum UserRoles {
    SuperAdmin,
    Employer,
}

impl Default for UserRoles {
    fn default() -> (r: Self)
        ensures
            r == UserRoles::Employer,
    {
        UserRoles::Employer
    }
}

/// A user account. `password` holds the password hash, never the password.
#[derive(Clone, Debug)]
pub struct User {
    email: String,
    password: Option<String>,
    registration_type: RegistrationType,
    psuid: Option<String>,
    role: UserRoles,
}

pub open spec fn opt_view(o: Option<String>) -> Option<Seq<char>> {
    match o {
        Some(s) => Some(s@),
        None => None,
    }
}

impl User {
    pub closed spec fn spec_email(&self) -> Seq<char> {
        self.email@
    }

    pub closed spec fn spec_hash(&self) -> Option<Seq<char>> {
        opt_view(self.password)
    }

    pub closed spec fn spec_registration_type(&self) -> RegistrationType {
        self.registration_type
    }

    pub closed spec fn spec_psuid(&self) -> Option<Seq<char>> {
        opt_view(self.psuid)
    }

    pub closed spec fn spec_role(&self) -> UserRoles {
        self.role
    }

    pub fn get_email(&self) -> (r: &str)
        ensures
            r@ == self.spec_email(),
    {
        self.email.as_str()
    }

    pub fn get_hash(&self) -> (r: &Option<String>)
        ensures
            opt_view(*r) == self.spec_hash(),
    {
        &self.password
    }

    pub fn get_psuid(&self) -> (r: &Option<String>)
        ensures
            opt_view(*r) == self.spec_psuid(),
    {
        &self.psuid
    }

    pub fn get_registration_type(&self) -> (r: &RegistrationType)
        ensures
            *r == self.spec_registration_type(),
    {
        &self.registration_type
    }

    pub fn get_role(&self) -> (r: &UserRoles)
        ensures
            *r == self.spec_role(),
    {
        &self.role
    }

    /// The same user with the e-mail address replaced.
    pub fn set_email(self, email: &str) -> (u: Self)
        ensures
            u.spec_email() == email@,
            u.spec_hash() == self.spec_hash(),
            u.spec_registration_type() == self.spec_registration_type(),
            u.spec_psuid() == self.spec_psuid(),
            u.spec_role() == self.spec_role(),
    {
        let mut u = self;
        u.email = email.to_owned();
        u
    }

    /// The same user with the password hash set.
    pub fn set_hash(self, hash: &str) -> (u: Self)
        ensures
            u.spec_email() == self.spec_email(),
            u.spec_hash() == Some(hash@),
            u.spec_registration_type() == self.spec_registration_type(),
            u.spec_psuid() == self.spec_psuid(),
            u.spec_role() == self.spec_role(),
    {
        let mut u = self;
        u.password = Some(hash.to_owned());
        u
    }

    /// The same user with the Yandex ID subject set.
    pub fn set_psuid(self, psuid: &str) -> (u: Self)
        ensures
            u.spec_email() == self.spec_email(),
            u.spec_hash() == self.spec_hash(),
            u.spec_registration_type() == self.spec_registration_type(),
            u.spec_psuid() == Some(psuid@),
            u.spec_role() == self.spec_role(),
    {
        let mut u = self;
        u.psuid = Some(psuid.to_owned());
        u
    }

    /// The same user with the registration type replaced.
    pub fn set_registration_type(self, registration_type: RegistrationType) -> (u: Self)
        ensures
            u.spec_email() == self.spec_email(),
            u.spec_hash() == self.spec_hash(),
            u.spec_registration_type() == registration_type,
            u.spec_psuid() == self.spec_psuid(),
            u.spec_role() == self.spec_role(),
    {
        let mut u = self;
        u.registration_type = registration_type;
        u
    }

    /// The same user with the role replaced.
    pub fn set_role(self, role: UserRoles) -> (u: Self)
        ensures
            u.spec_email() == self.spec_email(),
            u.spec_hash() == self.spec_hash(),
            u.spec_registration_type() == self.spec_registration_type(),
            u.spec_psuid() == self.spec_psuid(),
            u.spec_role() == role,
    {
        let mut u = self;
        u.role = role;
        u
    }

    /// A user can be stored when it has what its registration type needs: a
    /// password hash for a default account, a Yandex ID subject otherwise.
    pub fn ready_for_register(&self) -> (r: bool)
        ensures
            r == ((self.spec_hash() is Some && self.spec_registration_type() == RegistrationType::Default)
                || (self.spec_psuid() is Some && self.spec_registration_type() == RegistrationType::YandexID)),
    {
        if self.password.is_some() && self.registration_type == RegistrationType::Default {
            true
        } else {
            self.psuid.is_some() && self.registration_type == RegistrationType::YandexID
        }
    }
}

impl Default for User {
    fn default() -> (u: Self)
        ensures
            u.spec_email() == Seq::<char>::empty(),
            u.spec_hash() is None,
            u.spec_registration_type() == RegistrationType::Default,
            u.spec_psuid() is None,
            u.spec_role() == UserRoles::Employer,
    {
        let u = User {
            email: String::new(),
            password: None,
            registration_type: RegistrationType::default(),
            psuid: None,
            role: UserRoles::default(),
        };
        u
    }
}

/// The check in front of the administrative routes.
pub struct UserRole;

impl UserRole {
    /// Only a signed-in super administrator passes.
    pub fn admits(&self, user: Option<&User>) -> (r: bool)
        ensures
            r == (user matches Some(u) && u.spec_role() == UserRoles::SuperAdmin),
    {
        match user {
            Some(u) => *u.get_role() == UserRoles::SuperAdmin,
            None => false,
        }
    }
}

/// An error that has a fixed text for clients.
pub trait ParsableError {
    fn into_string(self) -> &'static str
        where Self: Sized;
}

/// Why an e-mail address is refused.
#[derive(Clone, Copy, Debug, PartialEq, Eq, Structural)]
pub enum EmailError {
    NotEmail,
    NotSupportedEmail,
}

pub open spec fn email_error_text(e: EmailError) -> &'static str {
    match e {
        EmailError::NotEmail => "provided email is not an actual email",
        EmailError::NotSupportedEmail => "email provider is not yet supported",
    }
}

impl ParsableError for EmailError {
    fn into_string(self) -> (s: &'static str)
        ensures
            s == email_error_text(self),
    {
        match self {
            EmailError::NotEmail => "provided email is not an actual email",
            EmailError::NotSupportedEmail => "email provider is not yet supported",
        }
    }
}

/// Why a password is refused.
#[derive(Clone, Copy, Debug, PartialEq, Eq, Structural)]
pub enum PasswordError {
    SpecialCharacter,
    Numbers,
    Letters,
    Length,
    Unexpected,
}

pub open spec fn password_error_text(e: PasswordError) -> &'static str {
    match e {
        PasswordError::SpecialCharacter => "password does not contain any special characters",
        PasswordError::Numbers => "password does not contain any numbers",
        PasswordError::Letters => "password does not contain any latin letters",
        PasswordError::Length => "password is less then 8 characters",
        PasswordError::Unexpected => "wtf was that?",
    }
}

impl ParsableError for PasswordError {
    fn into_string(self) -> (s: &'static str)
        ensures
            s == password_error_text(self),
    {
        match self {
            PasswordError::SpecialCharacter => "password does not contain any special characters",
            PasswordError::Numbers => "password does not contain any numbers",
            PasswordError::Letters => "password does not contain any latin letters",
            PasswordError::Length => "password is less then 8 characters",
            PasswordError::Unexpected => "wtf was that?",
        }
    }
}

/// The shape of an e-mail address: a local part, `@`, a domain and a
/// top-level domain of at least two letters, and nothing else.
pub const EMAIL_PATTERN: &'static str = r"^[A-Za-z0-9._%+\-]+@[A-Za-z0-9.-]+\.[A-Za-z]{2,}$";

/// Some special character.
pub const SPECIAL_CHARACTER_PATTERN: &'static str = r"[!@#$%^&*()_+\-=\[\]{};':\\|,.<>/?]";

/// Some decimal digit.
pub const DIGIT_PATTERN: &'static str = r"[0-9]";

/// Some latin letter.
pub const LETTER_PATTERN: &'static str = r"[A-Za-z]";

/// The shortest password accepted, in bytes.
pub const MIN_PASSWORD_LENGTH: usize = 8;

/// What searching `haystack` for the regular expression `pattern` gives:
/// `None` when the pattern does not compile, else whether it matches
/// somewhere in the text.
pub uninterp spec fn regex_search(pattern: Seq<char>, haystack: Seq<char>) -> Option<bool>;

pub open spec fn is_digit_char(c: char) -> bool {
    '0' <= c <= '9'
}

pub open spec fn is_letter_char(c: char) -> bool {
    ('A' <= c <= 'Z') || ('a' <= c <= 'z')
}

/// The characters of `SPECIAL_CHARACTER_PATTERN`'s class.
pub open spec fn is_special_char(c: char) -> bool {
    c == '!' || c == '@' || c == '#' || c == '$' || c == '%' || c == '^' || c == '&' || c == '*'
        || c == '(' || c == ')' || c == '_' || c == '+' || c == '-' || c == '=' || c == '['
        || c == ']' || c == '{' || c == '}' || c == ';' || c == '\'' || c == ':' || c == '\\'
        || c == '|' || c == ',' || c == '.' || c == '<' || c == '>' || c == '/' || c == '?'
}

pub open spec fn has_digit(s: Seq<char>) -> bool {
    exists|i: int| 0 <= i < s.len() && is_digit_char(#[trigger] s[i])
}

pub open spec fn has_letter(s: Seq<char>) -> bool {
    exists|i: int| 0 <= i < s.len() && is_letter_char(#[trigger] s[i])
}

pub open spec fn has_special(s: Seq<char>) -> bool {
    exists|i: int| 0 <= i < s.len() && is_special_char(#[trigger] s[i])
}

/// A character of the local part of `EMAIL_PATTERN`.
pub open spec fn is_local_char(c: char) -> bool {
    is_letter_char(c) || is_digit_char(c) || c == '.' || c == '_' || c == '%' || c == '+' || c == '-'
}

/// A character of the domain of `EMAIL_PATTERN`.
pub open spec fn is_domain_char(c: char) -> bool {
    is_letter_char(c) || is_digit_char(c) || c == '.' || c == '-'
}

/// `s` reads as `EMAIL_PATTERN` with the `@` at `at` and the dot before the
/// top-level domain at `dot`.
pub open spec fn email_split(s: Seq<char>, at: int, dot: int) -> bool {
    &&& 1 <= at && at + 1 < dot && dot + 3 <= s.len()
    &&& s[at] == '@'
    &&& s[dot] == '.'
    &&& forall|k: int| 0 <= k < at ==> is_local_char(#[trigger] s[k])
    &&& forall|k: int| at < k < dot ==> is_domain_char(#[trigger] s[k])
    &&& forall|k: int| dot < k < s.len() ==> is_letter_char(#[trigger] s[k])
}

/// The whole of `s` matches `EMAIL_PATTERN`: a non-empty local part, `@`, a
/// non-empty domain, a dot and at least two letters.
pub open spec fn email_shaped(s: Seq<char>) -> bool {
    exists|at: int, dot: int| email_split(s, at, dot)
}

/// Trusted: compiles `pattern` with `regex::Regex::new` and, when that
/// succeeds, asks `regex::Regex::is_match` whether it matches somewhere in
/// `haystack`. The outcome is a function of the two strings, which
/// `regex_search` names. For the four patterns of this module the claim is
/// what the regex syntax documents: each compiles; a bracket class matches
/// one character of the listed characters and ranges, so searching for a
/// single class finds whether some character of the text is in it; and
/// `EMAIL_PATTERN`, anchored by `^` and `$` at both ends of the text (no
/// multi-line flag), matches exactly the texts `email_shaped` describes
/// (`+` is one or more, `{2,}` two or more, `\.` a literal dot).
#[verifier::external_body]
fn search_pattern(pattern: &str, haystack: &str) -> (r: Option<bool>)
    ensures
        r == regex_search(pattern@, haystack@),
        pattern@ == DIGIT_PATTERN@ ==> r == Some(has_digit(haystack@)),
        pattern@ == LETTER_PATTERN@ ==> r == Some(has_letter(haystack@)),
        pattern@ == SPECIAL_CHARACTER_PATTERN@ ==> r == Some(has_special(haystack@)),
        pattern@ == EMAIL_PATTERN@ ==> r == Some(email_shaped(haystack@)),
{
    match regex::Regex::new(pattern) {
        Ok(compiled) => Some(compiled.is_match(haystack)),
        Err(_) => None,
    }
}

/// The Unicode `White_Space` characters, which trimming removes.
pub open spec fn is_white_space(c: char) -> bool {
    let v = c as u32;
    (0x9 <= v && v <= 0xd) || v == 0x20 || v == 0x85 || v == 0xa0 || v == 0x1680
        || (0x2000 <= v && v <= 0x200a) || v == 0x2028 || v == 0x2029 || v == 0x202f
        || v == 0x205f || v == 0x3000
}

fn white_space(c: char) -> (r: bool)
    ensures
        r == is_white_space(c),
{
    let v = c as u32;
    (0x9 <= v && v <= 0xd) || v == 0x20 || v == 0x85 || v == 0xa0 || v == 0x1680
        || (0x2000 <= v && v <= 0x200a) || v == 0x2028 || v == 0x2029 || v == 0x202f
        || v == 0x205f || v == 0x3000
}

/// Without leading white space.
pub open spec fn trim_start(s: Seq<char>) -> Seq<char>
    decreases s.len(),
{
    if s.len() > 0 && is_white_space(s[0]) {
        trim_start(s.drop_first())
    } else {
        s
    }
}

/// Without trailing white space.
pub open spec fn trim_end(s: Seq<char>) -> Seq<char>
    decreases s.len(),
{
    if s.len() > 0 && is_white_space(s.last()) {
        trim_end(s.drop_last())
    } else {
        s
    }
}

/// Without leading and trailing white space.
pub open spec fn trim_spec(s: Seq<char>) -> Seq<char> {
    trim_end(trim_start(s))
}

proof fn lemma_trim_start_skip(s: Seq<char>, i: int)
    requires
        0 <= i <= s.len(),
        forall|k: int| 0 <= k < i ==> #[trigger] is_white_space(s[k]),
    ensures
        trim_start(s) == trim_start(s.subrange(i, s.len() as int)),
    decreases i,
{
    if i > 0 {
        assert(s.drop_first().subrange(i - 1, s.drop_first().len() as int) =~= s.subrange(i, s.len() as int));
        assert forall|k: int| 0 <= k < i - 1 implies #[trigger] is_white_space(s.drop_first()[k]) by {
            assert(s.drop_first()[k] == s[k + 1]);
        }
        lemma_trim_start_skip(s.drop_first(), i - 1);
    } else {
        assert(s.subrange(0, s.len() as int) =~= s);
    }
}

proof fn lemma_trim_end_cut(s: Seq<char>, j: int)
    requires
        0 <= j <= s.len(),
        forall|k: int| j <= k < s.len() ==> #[trigger] is_white_space(s[k]),
    ensures
        trim_end(s) == trim_end(s.subrange(0, j)),
    decreases s.len() - j,
{
    if j < s.len() {
        assert(s.drop_last().subrange(0, j) =~= s.subrange(0, j));
        assert forall|k: int| j <= k < s.drop_last().len() implies #[trigger] is_white_space(s.drop_last()[k]) by {
            assert(s.drop_last()[k] == s[k]);
        }
        lemma_trim_end_cut(s.drop_last(), j);
    } else {
        assert(s.subrange(0, j) =~= s);
    }
}

/// `s` without leading and trailing white space.
pub fn trim_text(s: &str) -> (t: &str)
    ensures
        t@ == trim_spec(s@),
{
    let n = s.unicode_len();
    let mut start: usize = 0;
    while start < n && white_space(s.get_char(start))
        invariant
            start <= n,
            n == s@.len(),
            forall|k: int| 0 <= k < start ==> #[trigger] is_white_space(s@[k]),
        decreases n - start,
    {
        start = start + 1;
    }
    let ghost rest = s@.subrange(start as int, n as int);
    proof {
        lemma_trim_start_skip(s@, start as int);
        if rest.len() > 0 {
            assert(rest[0] == s@[start as int]);
        }
        assert(trim_start(s@) == rest);
    }
    let mut end: usize = n;
    while end > start && white_space(s.get_char(end - 1))
        invariant
            start <= end <= n,
            n == s@.len(),
            rest == s@.subrange(start as int, n as int),
            forall|k: int| end - start <= k < rest.len() ==> #[trigger] is_white_space(rest[k]),
        decreases end,
    {
        proof {
            assert(rest[end - 1 - start] == s@[end - 1]);
        }
        end = end - 1;
    }
    proof {
        lemma_trim_end_cut(rest, end - start);
        let kept = rest.subrange(0, end - start);
        assert(kept =~= s@.subrange(start as int, end as int));
        if kept.len() > 0 {
            assert(kept.last() == s@[end - 1]);
        }
    }
    s.substring_char(start, end)
}

/// `a` and `b` hold the same text.
pub fn same_text(a: &str, b: &str) -> (r: bool)
    ensures
        r == (a@ == b@),
{
    proof {
        lemma_text_order(a@, b@, b@);
        lemma_text_order(b@, a@, a@);
    }
    !text_less(a, b) && !text_less(b, a)
}

/// `i` is where the first `@` of `t` stands.
pub open spec fn first_at(t: Seq<char>, i: int) -> bool {
    &&& 0 <= i < t.len()
    &&& t[i] == '@'
    &&& forall|k: int| 0 <= k < i ==> #[trigger] t[k] != '@'
}

pub open spec fn has_at(t: Seq<char>) -> bool {
    exists|i: int| first_at(t, i)
}

proof fn lemma_first_at_unique(t: Seq<char>, i: int, j: int)
    requires
        first_at(t, i),
        first_at(t, j),
    ensures
        i == j,
{
    if i < j {
        assert(t[i] != '@');
    }
    if j < i {
        assert(t[j] != '@');
    }
}

/// What follows the first `@` of `t`.
pub open spec fn after_at(t: Seq<char>) -> Seq<char> {
    let i = choose|i: int| first_at(t, i);
    t.subrange(i + 1, t.len() as int)
}

/// The mail providers accepted for sign-up.
pub open spec fn supported_provider(p: Seq<char>) -> bool {
    p == "gmail.com"@ || p == "yandex.ru"@ || p == "vk.com"@ || p == "mail.ru"@
}

/// The verdict on an address, given whether it has the shape of one: not an
/// address, else accepted when the text after the first `@` of the trimmed
/// address names a supported provider.
pub open spec fn email_result(email: Seq<char>, well_formed: bool) -> Result<(), EmailError> {
    if !well_formed {
        Err(EmailError::NotEmail)
    } else if supported_provider(after_at(trim_spec(email))) {
        Ok(())
    } else {
        Err(EmailError::NotSupportedEmail)
    }
}

/// An address of the pattern's shape has an `@` once trimmed: it holds no
/// white space, and its local part holds no `@`.
proof fn lemma_shaped_email_has_at(email: Seq<char>)
    requires
        email_shaped(email),
    ensures
        has_at(trim_spec(email)),
{
    let (at, dot) = choose|at: int, dot: int| email_split(email, at, dot);
    assert(is_local_char(email[0]));
    assert(trim_start(email) == email);
    assert(is_letter_char(email[email.len() - 1]));
    assert(trim_end(email) == email);
    assert(first_at(email, at));
}

/// Judges an address whose shape has already been checked.
pub fn email_verdict(email: &str, well_formed: bool) -> (r: Result<(), EmailError>)
    requires
        well_formed ==> has_at(trim_spec(email@)),
    ensures
        r == email_result(email@, well_formed),
{
    if !well_formed {
        return Err(EmailError::NotEmail);
    }
    let trimmed = trim_text(email);
    let n = trimmed.unicode_len();
    let mut i: usize = 0;
    while i < n && trimmed.get_char(i) != '@'
        invariant
            i <= n,
            n == trimmed@.len(),
            has_at(trimmed@),
            forall|k: int| 0 <= k < i ==> #[trigger] trimmed@[k] != '@',
        decreases n - i,
    {
        i = i + 1;
    }
    proof {
        let w = choose|w: int| first_at(trimmed@, w);
        if i == n {
            assert(trimmed@[w] != '@');
        }
        assert(first_at(trimmed@, i as int));
        lemma_first_at_unique(trimmed@, i as int, choose|w: int| first_at(trimmed@, w));
    }
    let provider = trimmed.substring_char(i + 1, n);
    let supported = same_text(provider, "gmail.com") || same_text(provider, "yandex.ru")
        || same_text(provider, "vk.com") || same_text(provider, "mail.ru");
    if supported {
        Ok(())
    } else {
        Err(EmailError::NotSupportedEmail)
    }
}

/// Accepts an address of a supported provider.
pub fn validate_email(email: String) -> (r: Result<(), EmailError>)
    ensures
        r == email_result(email@, email_shaped(email@)),
{
    let well_formed = search_pattern(EMAIL_PATTERN, email.as_str()).unwrap();
    proof {
        if well_formed {
            lemma_shaped_email_has_at(email@);
        }
    }
    email_verdict(email.as_str(), well_formed)
}

/// The verdict on an address, as `validate_email` gives it.
pub fn check_email(email: &str) -> (r: Option<Result<(), EmailError>>)
    ensures
        r == Some(email_result(email@, email_shaped(email@))),
{
    Some(validate_email(email.to_owned()))
}

/// The verdict on a password of `len` bytes, given which character classes
/// it contains: too short first, then a missing special character, digit
/// or letter.
pub open spec fn password_result(len: int, special: bool, digit: bool, letter: bool) -> Result<(), PasswordError> {
    if special && digit && letter && len >= MIN_PASSWORD_LENGTH {
        Ok(())
    } else if len < MIN_PASSWORD_LENGTH {
        Err(PasswordError::Length)
    } else if !special {
        Err(PasswordError::SpecialCharacter)
    } else if !digit {
        Err(PasswordError::Numbers)
    } else if !letter {
        Err(PasswordError::Letters)
    } else {
        Err(PasswordError::Unexpected)
    }
}

/// The verdict on `password`, by its length in bytes and the character
/// classes found in it.
pub open spec fn password_outcome(password: Seq<char>) -> Result<(), PasswordError> {
    password_result(
        vstd::utf8::encode_utf8(password).len() as int,
        has_special(password),
        has_digit(password),
        has_letter(password),
    )
}

/// Judges a password by its length and the character classes found in it.
pub fn password_verdict(password: &str, special: bool, digit: bool, letter: bool) -> (r: Result<(), PasswordError>)
    ensures
        r == password_result(vstd::utf8::encode_utf8(password@).len() as int, special, digit, letter),
{
    let bytes = password.as_bytes();
    let len = bytes.len();
    proof {
        assert(bytes@ == password.spec_bytes());
    }
    if special && digit && letter && len >= MIN_PASSWORD_LENGTH {
        Ok(())
    } else if len < MIN_PASSWORD_LENGTH {
        Err(PasswordError::Length)
    } else if !special {
        Err(PasswordError::SpecialCharacter)
    } else if !digit {
        Err(PasswordError::Numbers)
    } else if !letter {
        Err(PasswordError::Letters)
    } else {
        Err(PasswordError::Unexpected)
    }
}

/// Accepts a password of at least eight bytes with a special character, a
/// digit and a latin letter.
pub fn validate_password(password: String) -> (r: Result<(), PasswordError>)
    ensures
        r == password_outcome(password@),
{
    let special = search_pattern(SPECIAL_CHARACTER_PATTERN, password.as_str()).unwrap();
    let digit = search_pattern(DIGIT_PATTERN, password.as_str()).unwrap();
    let letter = search_pattern(LETTER_PATTERN, password.as_str()).unwrap();
    password_verdict(password.as_str(), special, digit, letter)
}

/// The verdict on a password, as `validate_password` gives it.
pub fn check_password(password: &str) -> (r: Option<Result<(), PasswordError>>)
    ensures
        r == Some(password_outcome(password@)),
{
    Some(validate_password(password.to_owned()))
}

/// The messages for a default sign-up form: mismatched passwords, then the
/// password's problem, then the address's problem.
pub open spec fn registration_messages(
    passwords_match: bool,
    password_check: Result<(), PasswordError>,
    email_check: Result<(), EmailError>,
) -> Seq<&'static str> {
    let first: Seq<&'static str> = if passwords_match {
        Seq::empty()
    } else {
        seq!["passwords do not match"]
    };
    let second = match password_check {
        Ok(_) => first,
        Err(e) => first.push(password_error_text(e)),
    };
    match email_check {
        Ok(_) => second,
        Err(e) => second.push(email_error_text(e)),
    }
}

/// The messages to send back for a default sign-up form; empty when the form
/// is acceptable.
pub fn registration_errors(
    passwords_match: bool,
    password_check: Result<(), PasswordError>,
    email_check: Result<(), EmailError>,
) -> (r: Vec<&'static str>)
    ensures
        r@ == registration_messages(passwords_match, password_check, email_check),
{
    let mut errors: Vec<&'static str> = Vec::new();
    if !passwords_match {
        errors.push("passwords do not match");
    }
    match password_check {
        Ok(_) => {},
        Err(e) => errors.push(e.into_string()),
    }
    match email_check {
        Ok(_) => {},
        Err(e) => errors.push(e.into_string()),
    }
    proof {
        assert(errors@ =~= registration_messages(passwords_match, password_check, email_check));
    }
    errors
}

} // verus!

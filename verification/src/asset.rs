//! Assets: files edited through a lock file and a temporary file beside
//! them, and the errors of reading, writing and applying them.
use vstd::prelude::*;
use crate::string_proc::format_path::{all_steps, format_path, formatted_path_of, path_of};
use crate::index_source::lemma_decimal_bounded;
use crate::text::{
    all_digits, chars_of, decimal, decimal_chars, digits_value, is_digit, join_with, lemma_decimal_parses,
    lemma_split_append_plain, lemma_split_join, parse_bounded, parse_unsigned, split_chars, split_on, string_of,
};

verus! {

/// What a lock file name starts with.
pub const LOCK_FILE_PREFIX: &'static str = "~";

/// What a temporary file name starts with.
pub const TEMP_FILE_PREFIX: &'static str = ".tmp_";

/// Why an apply cannot go ahead.
#[derive(Debug, PartialEq, Eq, Structural, Clone, Copy)]
pub enum PrecheckFailed {
    LockNotFound,
    AssetNotFound,
    WritedButTempNotFound,
    AssetPathInvalid,
    TempNotMoveable,
    AssetNotWritable,
    HandleIsCrossDirectory,
    HandleFileIsNoParent,
    HasSamePath,
    LockOnLockFile,
    TempForTempFile,
    FormatPathFailed,
}

/// Error of reading an asset.
#[derive(Debug)]
pub enum DataReadError {
    IoError(std::io::Error),
    ParseError(String),
}

/// Error of writing an asset.
#[derive(Debug)]
pub enum DataWriteError {
    IoError(std::io::Error),
}

/// Error of applying the edit of an asset.
#[derive(Debug)]
pub enum DataApplyError {
    IoError(std::io::Error),
    AssetFileNotFound(std::path::PathBuf),
    PrecheckFailed(PrecheckFailed),
}

/// Error of taking the lock of an asset.
#[derive(Debug)]
pub enum HandleLockError {
    ParsePathFailed,
    AssetFileNotFound(std::path::PathBuf),
    ReadFileNameFailed,
    AssetLocked,
    IoError(std::io::Error),
    PrecheckFailed(PrecheckFailed),
}

impl From<PrecheckFailed> for HandleLockError {
    fn from(v: PrecheckFailed) -> (r: Self) {
        HandleLockError::PrecheckFailed(v)
    }
}

impl vstd::std_specs::convert::FromSpecImpl<PrecheckFailed> for HandleLockError {
    open spec fn obeys_from_spec() -> bool {
        true
    }

    open spec fn from_spec(v: PrecheckFailed) -> Self {
        HandleLockError::PrecheckFailed(v)
    }
}

impl From<PrecheckFailed> for DataApplyError {
    fn from(v: PrecheckFailed) -> (r: Self) {
        DataApplyError::PrecheckFailed(v)
    }
}

impl vstd::std_specs::convert::FromSpecImpl<PrecheckFailed> for DataApplyError {
    open spec fn obeys_from_spec() -> bool {
        true
    }

    open spec fn from_spec(v: PrecheckFailed) -> Self {
        DataApplyError::PrecheckFailed(v)
    }
}

/// Whether `s` starts with `prefix`.
pub open spec fn has_prefix(s: Seq<char>, prefix: Seq<char>) -> bool {
    prefix.len() <= s.len() && s.subrange(0, prefix.len() as int) == prefix
}

/// The lock file prefix, `~`.
pub open spec fn lock_prefix() -> Seq<char> {
    seq!['~']
}

/// The temporary file prefix, `.tmp_`.
pub open spec fn temp_prefix() -> Seq<char> {
    seq!['.', 't', 'm', 'p', '_']
}

/// A file name that may get a lock or a temporary file: not itself one of
/// them.
pub open spec fn name_check(name: Seq<char>) -> Result<(), PrecheckFailed> {
    if has_prefix(name, lock_prefix()) {
        Err(PrecheckFailed::LockOnLockFile)
    } else if has_prefix(name, temp_prefix()) {
        Err(PrecheckFailed::TempForTempFile)
    } else {
        Ok(())
    }
}

/// The characters of the lock file prefix.
fn lock_prefix_chars() -> (r: Vec<char>)
    ensures
        r@ == lock_prefix(),
{
    let mut v: Vec<char> = Vec::new();
    v.push('~');
    assert(v@ =~= lock_prefix());
    v
}

/// The characters of the temporary file prefix.
fn temp_prefix_chars() -> (r: Vec<char>)
    ensures
        r@ == temp_prefix(),
{
    let mut v: Vec<char> = Vec::new();
    v.push('.');
    v.push('t');
    v.push('m');
    v.push('p');
    v.push('_');
    assert(v@ =~= temp_prefix());
    v
}

/// Whether the characters start with the given ones.
fn starts_with_chars(s: &Vec<char>, prefix: &[char]) -> (r: bool)
    ensures
        r == has_prefix(s@, prefix@),
{
    if prefix.len() > s.len() {
        return false;
    }
    let mut i: usize = 0;
    while i < prefix.len()
        invariant
            0 <= i <= prefix.len() <= s.len(),
            forall|j: int| 0 <= j < i ==> s@[j] == prefix@[j],
        decreases prefix.len() - i,
    {
        if s[i] != prefix[i] {
            return false;
        }
        i = i + 1;
    }
    assert(s@.subrange(0, prefix@.len() as int) =~= prefix@);
    true
}

/// Checks that a file name may get a lock or a temporary file.
fn check_name(name: &str) -> (r: Result<(), PrecheckFailed>)
    ensures
        r == name_check(name@),
{
    let cs = chars_of(name);
    let lock = lock_prefix_chars();
    if starts_with_chars(&cs, lock.as_slice()) {
        return Err(PrecheckFailed::LockOnLockFile);
    }
    let temp = temp_prefix_chars();
    if starts_with_chars(&cs, temp.as_slice()) {
        return Err(PrecheckFailed::TempForTempFile);
    }
    Ok(())
}

/// The file name with `prefix` in front.
fn prefixed(prefix: &[char], name: &str) -> (r: String)
    ensures
        r@ == prefix@ + name@,
{
    let mut out: Vec<char> = Vec::new();
    let mut i: usize = 0;
    while i < prefix.len()
        invariant
            0 <= i <= prefix.len(),
            out@ == prefix@.take(i as int),
        decreases prefix.len() - i,
    {
        out.push(prefix[i]);
        assert(prefix@.take(i + 1) =~= prefix@.take(i as int).push(prefix@[i as int]));
        i = i + 1;
    }
    let mut rest = chars_of(name);
    out.append(&mut rest);
    assert(prefix@.take(prefix.len() as int) =~= prefix@);
    string_of(out.as_slice())
}

/// The name of the lock file of a file: `~` and the name, unless the file
/// is itself a lock or a temporary file.
pub fn lock_file_name(file_name: &str) -> (r: Result<String, PrecheckFailed>)
    ensures
        match name_check(file_name@) {
            Ok(()) => r matches Ok(s) && s@ == lock_prefix() + file_name@,
            Err(e) => r == Err::<String, PrecheckFailed>(e),
        },
{
    match check_name(file_name) {
        Ok(()) => {
            let lock = lock_prefix_chars();
            Ok(prefixed(lock.as_slice(), file_name))
        },
        Err(e) => Err(e),
    }
}

/// The name of the temporary file of a file: `.tmp_` and the name, unless
/// the file is itself a lock or a temporary file.
pub fn temp_file_name(file_name: &str) -> (r: Result<String, PrecheckFailed>)
    ensures
        match name_check(file_name@) {
            Ok(()) => r matches Ok(s) && s@ == temp_prefix() + file_name@,
            Err(e) => r == Err::<String, PrecheckFailed>(e),
        },
{
    match check_name(file_name) {
        Ok(()) => {
            let temp = temp_prefix_chars();
            Ok(prefixed(temp.as_slice(), file_name))
        },
        Err(e) => Err(e),
    }
}

/// Named result of `Path::file_name`, read with `OsStr::to_string_lossy`,
/// for the path made of a text: the text of its last component, if that
/// names a file or directory.
pub uninterp spec fn file_name_of(text: Seq<char>) -> Option<Seq<char>>;

/// Named result of `PathBuf::set_file_name` on the path made of a text:
/// the text of the path with its last component replaced by `name`.
pub uninterp spec fn with_file_name_of(text: Seq<char>, name: Seq<char>) -> Seq<char>;

/// The last component of a path, if it names a file or directory.
///
/// Calls `Path::file_name` and `OsStr::to_string_lossy`. For a path made of
/// a text, the contract names the result; of any other path it claims
/// nothing.
#[verifier::external_body]
fn path_file_name(path: &std::path::PathBuf) -> (r: Option<String>)
    ensures
        forall|t: Seq<char>|
            #[trigger] path_of(t) == *path ==> match r {
                Some(n) => file_name_of(t) == Some(n@),
                None => file_name_of(t) is None,
            },
{
    path.file_name().map(|n| n.to_string_lossy().into_owned())
}

/// The path with its last component replaced by `name`.
///
/// Calls `PathBuf::set_file_name` on a copy. For a path made of a text, the
/// result is the path made of the text that the name gives; of any other
/// path nothing is claimed.
#[verifier::external_body]
fn path_with_file_name(path: &std::path::PathBuf, name: &str) -> (r: std::path::PathBuf)
    ensures
        forall|t: Seq<char>| #[trigger] path_of(t) == *path ==> r == path_of(with_file_name_of(t, name@)),
{
    let mut p = path.clone();
    p.set_file_name(name);
    p
}

/// A path of the given text.
///
/// Calls `PathBuf::from`, which wraps the text as it is.
#[verifier::external_body]
fn path_from_text(s: &str) -> (r: std::path::PathBuf)
    ensures
        r == path_of(s@),
{
    std::path::PathBuf::from(s)
}

/// An asset file of data of type `RWDataType`, for reading.
pub struct ReadOnlyAsset<RWDataType> {
    _data_type: core::marker::PhantomData<RWDataType>,
    path: std::path::PathBuf,
}

/// The prefix of lock files (`~`) or of temporary files (`.tmp_`).
pub open spec fn file_prefix(lock: bool) -> Seq<char> {
    if lock {
        lock_prefix()
    } else {
        temp_prefix()
    }
}

/// The name of the lock file (`lock`) or of the temporary file of a file
/// with the given name: the prefix before the name. No name gives
/// `ReadFileNameFailed`; a name that is itself a lock or temporary file name
/// gives that check's error.
pub fn prefixed_file_name(file_name: Option<String>, lock: bool) -> (r: Result<String, HandleLockError>)
    ensures
        match file_name {
            None => r matches Err(HandleLockError::ReadFileNameFailed),
            Some(n) => match name_check(n@) {
                Ok(()) => r matches Ok(s) && s@ == file_prefix(lock) + n@,
                Err(e) => r matches Err(HandleLockError::PrecheckFailed(f)) && f == e,
            },
        },
{
    let name = match file_name {
        Some(n) => n,
        None => {
            return Err(HandleLockError::ReadFileNameFailed);
        },
    };
    let named = if lock {
        lock_file_name(name.as_str())
    } else {
        temp_file_name(name.as_str())
    };
    match named {
        Ok(n) => Ok(n),
        Err(e) => Err(HandleLockError::PrecheckFailed(e)),
    }
}

/// What `prefixed_path` gives for the path made of the text `t`: no file
/// name gives `ReadFileNameFailed`; a name that is itself a lock or
/// temporary file name gives that check's error; otherwise the path with
/// the prefixed name in place of the file's name, normalized with every
/// step on (`ParsePathFailed` where normalizing fails).
pub open spec fn prefixed_path_of(t: Seq<char>, lock: bool) -> Result<std::path::PathBuf, HandleLockError> {
    match file_name_of(t) {
        None => Err(HandleLockError::ReadFileNameFailed),
        Some(n) => match name_check(n) {
            Err(e) => Err(HandleLockError::PrecheckFailed(e)),
            Ok(()) => match formatted_path_of(with_file_name_of(t, file_prefix(lock) + n), all_steps()) {
                Some(q) => Ok(q),
                None => Err(HandleLockError::ParsePathFailed),
            },
        },
    }
}

/// The path beside an asset's file whose name is the file's name behind a
/// prefix: the name that `prefixed_file_name` gives for the file's name
/// (its error, if any), put in place of the file's name, and the path
/// normalized (else `ParsePathFailed`); for a path made of a text, exactly
/// `prefixed_path_of`.
fn prefixed_path(path: &std::path::PathBuf, lock: bool) -> (r: Result<std::path::PathBuf, HandleLockError>)
    ensures
        forall|t: Seq<char>| #[trigger] path_of(t) == *path ==> r == prefixed_path_of(t, lock),
        r is Ok || r matches Err(HandleLockError::ReadFileNameFailed) || r matches Err(
            HandleLockError::ParsePathFailed,
        ) || r matches Err(HandleLockError::PrecheckFailed(PrecheckFailed::LockOnLockFile)) || r matches Err(
            HandleLockError::PrecheckFailed(PrecheckFailed::TempForTempFile),
        ),
        r matches Ok(p) ==> exists|t: Seq<char>| #[trigger] formatted_path_of(t, all_steps()) == Some(p),
        r matches Err(HandleLockError::ParsePathFailed) ==> exists|t: Seq<char>| #[trigger] formatted_path_of(
            t,
            all_steps(),
        ) is None,
{
    let new_name = match prefixed_file_name(path_file_name(path), lock) {
        Ok(n) => n,
        Err(e) => {
            return Err(e);
        },
    };
    let edit_path = path_with_file_name(path, new_name.as_str());
    match format_path(edit_path) {
        Ok(p) => Ok(p),
        Err(_) => Err(HandleLockError::ParsePathFailed),
    }
}

impl<RWDataType> ReadOnlyAsset<RWDataType> {
    /// The path of the asset's file.
    pub closed spec fn path_view(&self) -> std::path::PathBuf {
        self.path
    }

    /// The asset whose file is at `path`.
    pub closed spec fn asset_at(path: std::path::PathBuf) -> Self {
        ReadOnlyAsset { _data_type: core::marker::PhantomData, path }
    }

    /// The path of the lock file of the asset: `~` before the file's name,
    /// beside it, normalized (`prefixed_path_of` with the lock prefix, for
    /// a path made of a text).
    pub fn get_lock_path(&self) -> (r: Result<std::path::PathBuf, HandleLockError>)
        ensures
            forall|t: Seq<char>| #[trigger] path_of(t) == self.path_view() ==> r == prefixed_path_of(t, true),
            r is Ok || r matches Err(HandleLockError::ReadFileNameFailed) || r matches Err(
                HandleLockError::ParsePathFailed,
            ) || r matches Err(HandleLockError::PrecheckFailed(PrecheckFailed::LockOnLockFile)) || r matches Err(
                HandleLockError::PrecheckFailed(PrecheckFailed::TempForTempFile),
            ),
            r matches Ok(p) ==> exists|t: Seq<char>| #[trigger] formatted_path_of(t, all_steps()) == Some(p),
            r matches Err(HandleLockError::ParsePathFailed) ==> exists|t: Seq<char>| #[trigger] formatted_path_of(
                t,
                all_steps(),
            ) is None,
    {
        prefixed_path(&self.path, true)
    }

    /// The path of the temporary file of the asset: `.tmp_` before the
    /// file's name, beside it, normalized (`prefixed_path_of` with the
    /// temporary prefix, for a path made of a text).
    pub fn get_temp_path(&self) -> (r: Result<std::path::PathBuf, HandleLockError>)
        ensures
            forall|t: Seq<char>| #[trigger] path_of(t) == self.path_view() ==> r == prefixed_path_of(t, false),
            r is Ok || r matches Err(HandleLockError::ReadFileNameFailed) || r matches Err(
                HandleLockError::ParsePathFailed,
            ) || r matches Err(HandleLockError::PrecheckFailed(PrecheckFailed::LockOnLockFile)) || r matches Err(
                HandleLockError::PrecheckFailed(PrecheckFailed::TempForTempFile),
            ),
            r matches Ok(p) ==> exists|t: Seq<char>| #[trigger] formatted_path_of(t, all_steps()) == Some(p),
            r matches Err(HandleLockError::ParsePathFailed) ==> exists|t: Seq<char>| #[trigger] formatted_path_of(
                t,
                all_steps(),
            ) is None,
    {
        prefixed_path(&self.path, false)
    }

    /// The path of the asset's file.
    pub fn path(&self) -> (r: &std::path::PathBuf)
        ensures
            *r == self.path_view(),
    {
        &self.path
    }
}

impl<RWDataType> From<std::path::PathBuf> for ReadOnlyAsset<RWDataType> {
    fn from(v: std::path::PathBuf) -> (r: Self)
        ensures
            r.path_view() == v,
    {
        ReadOnlyAsset { _data_type: core::marker::PhantomData, path: v }
    }
}

impl<RWDataType> vstd::std_specs::convert::FromSpecImpl<std::path::PathBuf> for ReadOnlyAsset<RWDataType> {
    open spec fn obeys_from_spec() -> bool {
        true
    }

    open spec fn from_spec(v: std::path::PathBuf) -> Self {
        ReadOnlyAsset::asset_at(v)
    }
}

impl<'a, RWDataType> From<&'a str> for ReadOnlyAsset<RWDataType> {
    fn from(v: &'a str) -> (r: Self)
        ensures
            r.path_view() == path_of(v@),
    {
        ReadOnlyAsset { _data_type: core::marker::PhantomData, path: path_from_text(v) }
    }
}

impl<'a, RWDataType> vstd::std_specs::convert::FromSpecImpl<&'a str> for ReadOnlyAsset<RWDataType> {
    open spec fn obeys_from_spec() -> bool {
        true
    }

    open spec fn from_spec(v: &'a str) -> Self {
        ReadOnlyAsset::asset_at(path_of(v@))
    }
}

impl<RWDataType> From<String> for ReadOnlyAsset<RWDataType> {
    fn from(v: String) -> (r: Self)
        ensures
            r.path_view() == path_of(v@),
    {
        ReadOnlyAsset { _data_type: core::marker::PhantomData, path: path_from_text(v.as_str()) }
    }
}

impl<RWDataType> vstd::std_specs::convert::FromSpecImpl<String> for ReadOnlyAsset<RWDataType> {
    open spec fn obeys_from_spec() -> bool {
        true
    }

    open spec fn from_spec(v: String) -> Self {
        ReadOnlyAsset::asset_at(path_of(v@))
    }
}

impl<RWDataType> From<ReadOnlyAsset<RWDataType>> for std::path::PathBuf {
    fn from(value: ReadOnlyAsset<RWDataType>) -> (r: Self)
        ensures
            r == value.path_view(),
    {
        value.path
    }
}

impl<RWDataType> vstd::std_specs::convert::FromSpecImpl<ReadOnlyAsset<RWDataType>> for std::path::PathBuf {
    open spec fn obeys_from_spec() -> bool {
        true
    }

    open spec fn from_spec(v: ReadOnlyAsset<RWDataType>) -> Self {
        v.path_view()
    }
}

/// The number that `i32` text denotes, as `str::parse::<i32>` reads it: an
/// optional sign, then one or more digits, within the range of `i32`.
pub open spec fn parse_i32_spec(s: Seq<char>) -> Option<int> {
    if s.len() > 0 && s[0] == '-' {
        let d = s.drop_first();
        if d.len() == 0 || !all_digits(d) || digits_value(d) > 0x8000_0000 {
            None
        } else {
            Some(-(digits_value(d) as int))
        }
    } else {
        match parse_bounded(s, 0x7fff_ffff) {
            Some(v) => Some(v as int),
            None => None,
        }
    }
}

/// Reads text as an `i32`.
fn parse_i32(s: &str) -> (r: Option<i32>)
    ensures
        match parse_i32_spec(s@) {
            Some(v) => r == Some(v as i32),
            None => r is None,
        },
{
    let cs = chars_of(s);
    if cs.len() > 0 && cs[0] == '-' {
        let ghost d = cs@.drop_first();
        assert(cs@.subrange(1, cs@.len() as int) =~= d);
        if cs.len() > 1 && cs[1] == '+' {
            assert(!all_digits(d)) by {
                assert(!is_digit(d[0]));
            }
            return None;
        }
        match parse_unsigned(&cs, 1, cs.len(), 0x8000_0000) {
            Some(v) => {
                assert(d.len() == 0 || d[0] != '+');
                if v == 0x8000_0000 {
                    Some(-2147483648i32)
                } else {
                    let x: i32 = v as i32;
                    Some(-x)
                }
            },
            None => {
                assert(d.len() == 0 || d[0] != '+');
                None
            },
        }
    } else {
        assert(cs@.subrange(0, cs@.len() as int) =~= cs@);
        match parse_unsigned(&cs, 0, cs.len(), 0x7fff_ffff) {
            Some(v) => Some(v as i32),
            None => None,
        }
    }
}

/// The decimal text of an `i32`: a `-` before the digits of a negative
/// number.
pub open spec fn i32_text(n: i32) -> Seq<char> {
    if n < 0 {
        seq!['-'] + decimal((-n) as nat)
    } else {
        decimal(n as nat)
    }
}

/// Sample data of the asset tests: an age and a name, stored as
/// `name=age`.
#[derive(Debug, Clone)]
pub struct FooData {
    pub age: i32,
    pub name: String,
}

/// Why text is not `FooData`: it is not two parts around one `=`, or the
/// age is not an `i32`.
pub open spec fn foo_parse_error(s: Seq<char>) -> Option<Seq<char>> {
    let parts = split_on(s, '=');
    if parts.len() != 2 {
        Some("Invalid format"@)
    } else if parse_i32_spec(parts[1]) is None {
        Some("Invalid age"@)
    } else {
        None
    }
}

impl FooData {
    /// Reads `name=age`: exactly one `=`, an `i32` after it.
    pub fn parse(content: &str) -> (r: Result<FooData, DataReadError>)
        ensures
            match foo_parse_error(content@) {
                Some(m) => r matches Err(DataReadError::ParseError(e)) && e@ == m,
                None => r matches Ok(d) && d.name@ == split_on(content@, '=')[0] && parse_i32_spec(
                    split_on(content@, '=')[1],
                ) == Some(d.age as int),
            },
    {
        let cs = chars_of(content);
        let parts = split_chars(&cs, 0, cs.len(), '=');
        assert(cs@.subrange(0, cs@.len() as int) =~= content@);
        let ghost ps = parts@.map_values(|x: Vec<char>| x@);
        if parts.len() != 2 {
            return Err(DataReadError::ParseError("Invalid format".to_owned()));
        }
        assert(ps[0] == parts@[0]@ && ps[1] == parts@[1]@);
        let name = string_of(parts[0].as_slice());
        let age_text = string_of(parts[1].as_slice());
        match parse_i32(age_text.as_str()) {
            Some(age) => Ok(FooData { age, name }),
            None => Err(DataReadError::ParseError("Invalid age".to_owned())),
        }
    }

    /// The stored text: `name=age`.
    pub fn to_text(&self) -> (r: String)
        ensures
            r@ == self.name@ + seq!['='] + i32_text(self.age),
    {
        let mut out = chars_of(self.name.as_str());
        out.push('=');
        let mut digits = if self.age < 0 {
            out.push('-');
            let m: i64 = -(self.age as i64);
            decimal_chars(m as u64)
        } else {
            decimal_chars(self.age as u64)
        };
        let ghost before = out@;
        let ghost d = digits@;
        out.append(&mut digits);
        assert(out@ =~= self.name@ + seq!['='] + i32_text(self.age));
        string_of(out.as_slice())
    }

    /// The sample data.
    pub fn test_data() -> (r: FooData)
        ensures
            r.age == 24,
            r.name@ == "OneOneFourFiveOneFour"@,
    {
        FooData { age: 24, name: "OneOneFourFiveOneFour".to_owned() }
    }

    /// Whether two samples are equal: the same age and name.
    pub fn verify_data(data_a: FooData, data_b: FooData) -> (r: bool)
        ensures
            r == (data_a.age == data_b.age && data_a.name@ == data_b.name@),
    {
        if data_a.age != data_b.age {
            return false;
        }
        if data_a.name != data_b.name {
            return false;
        }
        true
    }
}


/// The decimal text of an `i32` reads back as the same number.
proof fn lemma_i32_text_parses(n: i32)
    ensures
        parse_i32_spec(i32_text(n)) == Some(n as int),
        forall|j: int| 0 <= j < i32_text(n).len() ==> #[trigger] i32_text(n)[j] != '=',
{
    let x = i32_text(n);
    if n < 0 {
        let d = decimal((-n) as nat);
        lemma_decimal_parses((-n) as nat);
        assert(x.drop_first() =~= d);
        assert forall|j: int| 0 <= j < x.len() implies #[trigger] x[j] != '=' by {
            if j > 0 {
                assert(x[j] == d[j - 1]);
                assert(is_digit(d[j - 1]));
            }
        }
    } else {
        lemma_decimal_parses(n as nat);
        lemma_decimal_bounded(n as nat, 0x7fff_ffff);
        assert(is_digit(x[0]));
        assert forall|j: int| 0 <= j < x.len() implies #[trigger] x[j] != '=' by {
            assert(is_digit(x[j]));
        }
    }
}

/// What `FooData::to_text` writes, `FooData::parse` reads back as the same
/// data, whenever the name holds no `=`.
pub proof fn lemma_foo_text_reads_back(name: Seq<char>, age: i32)
    requires
        forall|j: int| 0 <= j < name.len() ==> #[trigger] name[j] != '=',
    ensures
        foo_parse_error(name + seq!['='] + i32_text(age)) is None,
        split_on(name + seq!['='] + i32_text(age), '=')[0] == name,
        parse_i32_spec(split_on(name + seq!['='] + i32_text(age), '=')[1]) == Some(age as int),
{
    let x = i32_text(age);
    let e = Seq::<char>::empty();
    lemma_i32_text_parses(age);
    let one = seq![name];
    assert(join_with(one, '=') == name);
    assert(crate::text::free_of(one, '=')) by {
        assert forall|i: int, j: int| 0 <= i < one.len() && 0 <= j < one[i].len() implies #[trigger] one[i][j]
            != '=' by {
            assert(one[i] == name);
        }
    }
    lemma_split_join(one, '=');
    let a = name + seq!['='];
    assert(a.drop_last() =~= name);
    assert(split_on(a, '=') =~= seq![name, e]);
    lemma_split_append_plain(a, x, '=');
    assert(e + x =~= x);
    assert(split_on(a + x, '=') =~= seq![name, x]);
}

} // verus!

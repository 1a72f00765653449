//! What is read out of a model's embed page and the viewer's scripts.

use crate::outside::{
    base64_decode, base64_of, capture, capture_view, matches_of, regex_capture, regex_matches,
    text_from_utf8,
};
use crate::text::{
    ascending, chars_of, find_chars, find_of, law_other_text_stays,
    law_text_is_found_where_it_stands, law_text_is_replaced_where_it_stands, lower_of, lowercase,
    occurs_at, part_of, replace_text, replaced_of, rfind_char, rfind_of, sort_unique, string_of,
    texts, trim_end, trimmed_end_of,
};
use vstd::prelude::*;

verus! {

/// Why a page or a script could not be used.
#[derive(Clone, Copy, Debug, PartialEq, Eq, Structural)]
pub enum PageError {
    /// The bytes are not text.
    NotText,
    /// A pattern did not compile.
    Pattern,
    /// There is no model number of 32 hexadecimal digits.
    NoModelNumber,
    /// The page does not hold the model's key.
    NoModelKey,
    /// The page does not hold the address of the model's files.
    NoFileAddress,
    /// The page does not hold the model's description.
    NoDescription,
    /// The model's description does not end.
    OpenDescription,
    /// The description does not speak of the model.
    NoModel,
    /// The page names no scripts.
    NoScripts,
    /// A script holds a module outside of a string.
    MalformedScript,
    /// A script holds a module that is not base64.
    MalformedModule,
    /// No script holds the module.
    NoModule,
}

/// The key that is used when no script holds one.
pub const STATIC_KEY: &'static str = "77d92dd656ac3fdde472d5ba59747f42ac0ce217";

/// Model numbers.
pub const MODEL_PATTERN: &'static str = "([a-f0-9]{32})";

/// Addresses of the viewer's scripts.
pub const SCRIPT_PATTERN: &'static str =
    "https://static\\.sketchfab\\.com/static/builds/web/dist/[^\\\"&]+\\.js";

/// The static key, as an export.
pub const KEY_PATTERN_EXPORT: &'static str =
    "exports\\s*\\.\\s*k\\s*:\\s*\\(\\)\\s*=>\\s*\\w+\\}\\s*;\\s*const\\s+\\w+\\s*=\\s*\"([0-9a-f]{40})\\\\n";

/// The static key, as a member.
pub const KEY_PATTERN_MEMBER: &'static str =
    "\\{k:\\s*\\(\\)\\s*=>\\s*\\w+\\}[^;]*;\\s*const\\s+\\w+\\s*=\\s*\"([0-9a-f]{40})";

/// The static key, as a module of its own.
pub const KEY_PATTERN_MODULE: &'static str =
    "C04p\\s*:\\s*\\w+\\s*=>\\s*\\{\\s*\"use strict\";\\s*\\w+\\.exports\\s*=\\s*\"([0-9a-f]{40})\\\\n";

/// The model's key.
pub const MODEL_KEY_PATTERN: &'static str =
    "\"p\"\\s*:\\s*\\[\\{[^}]*\"v\"\\s*:\\s*(\\d+)[^}]*\"b\"\\s*:\\s*\"([^\"]+)\"";

/// The address of the model's first file.
pub const FILE_PATTERN: &'static str =
    "https://media\\.sketchfab\\.com/models/[^\"]*/files/[^\"]*/file\\.binz";

/// The text of a fetched page or script.
pub fn fetch_text(bytes: Vec<u8>) -> (r: Result<String, PageError>)
    ensures
        match r {
            Ok(s) => vstd::utf8::valid_utf8(bytes@) && s@ == vstd::utf8::decode_utf8(bytes@),
            Err(e) => !vstd::utf8::valid_utf8(bytes@) && e == PageError::NotText,
        },
{
    match text_from_utf8(bytes) {
        Some(s) => Ok(s),
        None => Err(PageError::NotText),
    }
}

/// What a captured group means when it is needed: its text, or an error if it was not found.
pub open spec fn needed(found: Option<Option<Seq<char>>>, missing: PageError) -> Result<
    Seq<char>,
    PageError,
> {
    match found {
        None => Err(PageError::Pattern),
        Some(None) => Err(missing),
        Some(Some(t)) => Ok(t),
    }
}

/// A result with its string seen as characters.
pub open spec fn text_result(r: Result<String, PageError>) -> Result<Seq<char>, PageError> {
    match r {
        Ok(s) => Ok(s@),
        Err(e) => Err(e),
    }
}

/// What a captured group means when it is needed.
pub fn need(found: Option<Option<String>>, missing: PageError) -> (r: Result<String, PageError>)
    ensures
        text_result(r) == needed(capture_view(found), missing),
{
    match found {
        None => Err(PageError::Pattern),
        Some(None) => Err(missing),
        Some(Some(t)) => Ok(t),
    }
}

/// The model number in an address or in the argument itself.
pub fn model_number(argument: &str) -> (r: Result<String, PageError>)
    ensures
        text_result(r) == needed(
            regex_capture(MODEL_PATTERN@, argument@, 1),
            PageError::NoModelNumber,
        ),
{
    need(capture(MODEL_PATTERN, argument, 1), PageError::NoModelNumber)
}

/// The page with its quotation marks written out.
pub open spec fn unquoted(html: Seq<char>) -> Seq<char> {
    replaced_of(replaced_of(html, "&#34;"@, "\""@), "&quot;"@, "\""@)
}

/// Writes out the quotation marks of a page.
pub fn unquote(html: &str) -> (r: String)
    ensures
        r@ == unquoted(html@),
{
    proof {
        reveal_strlit("&#34;");
        reveal_strlit("&quot;");
    }
    let once = replace_text(html, "&#34;", "\"");
    replace_text(once.as_str(), "&quot;", "\"")
}

/// Whether a list holds each address of another list once, in dictionary order.
pub open spec fn sorted_once(list: Seq<Seq<char>>, all: Seq<Seq<char>>) -> bool {
    ascending(list) && forall|t: Seq<char>| list.contains(t) <==> all.contains(t)
}

/// The addresses of the scripts that a page names, each once, in dictionary order.
pub fn script_addresses(html: &str) -> (r: Result<Vec<String>, PageError>)
    ensures
        match r {
            Ok(list) => regex_matches(SCRIPT_PATTERN@, html@) matches Some(all) && sorted_once(
                texts(list@),
                all,
            ),
            Err(e) => regex_matches(SCRIPT_PATTERN@, html@) is None && e == PageError::Pattern,
        },
{
    match matches_of(SCRIPT_PATTERN, html) {
        Some(all) => Ok(sort_unique(&all)),
        None => Err(PageError::Pattern),
    }
}

/// The first quotation mark at or after `from` without a backslash before it.
pub open spec fn quote_from(s: Seq<char>, from: int) -> Option<int>
    decreases s.len() - from,
{
    if from < 0 || from >= s.len() {
        None
    } else if s[from] == '"' && (from == 0 || s[from - 1] != '\\') {
        Some(from)
    } else {
        quote_from(s, from + 1)
    }
}

/// What a script says of the decryption module: nothing, or the base64 text of the string that
/// holds it.
pub open spec fn module_text(js: Seq<char>) -> Result<Option<Seq<char>>, PageError> {
    match find_of(js, "AGFzbQ"@, 0) {
        None => Ok(None),
        Some(at) => match rfind_of(js, '"', at) {
            None => Err(PageError::MalformedScript),
            Some(open) => match quote_from(js, at) {
                None => Ok(None),
                Some(end) => Ok(
                    Some(replaced_of(js.subrange(open + 1, end), "\\n"@, Seq::empty())),
                ),
            },
        },
    }
}

/// The string of a script that holds the decryption module.
pub fn find_module_text(js: &str) -> (r: Result<Option<String>, PageError>)
    ensures
        match r {
            Ok(Some(t)) => module_text(js@) == Ok::<Option<Seq<char>>, PageError>(Some(t@)),
            Ok(None) => module_text(js@) == Ok::<Option<Seq<char>>, PageError>(None),
            Err(e) => module_text(js@) == Err::<Option<Seq<char>>, PageError>(e),
        },
{
    let s = chars_of(js);
    let marker = chars_of("AGFzbQ");
    let at: usize = match find_chars(s.as_slice(), marker.as_slice(), 0) {
        Some(i) => i,
        None => {
            return Ok(None);
        },
    };
    let open: usize = match rfind_char(s.as_slice(), '"', at) {
        Some(i) => i,
        None => {
            return Err(PageError::MalformedScript);
        },
    };
    let mut end: usize = at;
    while end < s.len()
        invariant
            open < at <= end <= s@.len(),
            s@ == js@,
            quote_from(js@, at as int) == quote_from(js@, end as int),
            find_of(js@, "AGFzbQ"@, 0) == Some(at as int),
            rfind_of(js@, '"', at as int) == Some(open as int),
        decreases s@.len() - end,
    {
        if s[end] == '"' && (end == 0 || s[end - 1] != '\\') {
            let inside = string_of(part_of(s.as_slice(), open + 1, end).as_slice());
            proof {
                reveal_strlit("\\n");
                reveal_strlit("");
                assert(""@ =~= Seq::<char>::empty());
            }
            return Ok(Some(replace_text(inside.as_str(), "\\n", "")));
        }
        end += 1;
    }
    Ok(None)
}

/// Whether bytes start like a WebAssembly module.
pub open spec fn is_module(bytes: Seq<u8>) -> bool {
    bytes.len() >= 4 && bytes[0] == 0 && bytes[1] == 0x61 && bytes[2] == 0x73 && bytes[3] == 0x6d
}

/// What a script means for the search of the decryption module, once its string is decoded.
pub fn accept_module(decoded: Option<Vec<u8>>) -> (r: Result<Option<Vec<u8>>, PageError>)
    ensures
        match decoded {
            None => r == Err::<Option<Vec<u8>>, PageError>(PageError::MalformedModule),
            Some(bytes) => if is_module(bytes@) {
                r matches Ok(Some(m)) && m@ == bytes@
            } else {
                r matches Ok(None)
            },
        },
{
    match decoded {
        None => Err(PageError::MalformedModule),
        Some(bytes) => {
            if bytes.len() >= 4 && bytes[0] == 0 && bytes[1] == 0x61 && bytes[2] == 0x73 && bytes[3]
                == 0x6d {
                Ok(Some(bytes))
            } else {
                Ok(None)
            }
        },
    }
}

/// The decryption module in a script, nothing if the script holds none.
pub fn module_in_script(js: &str) -> (r: Result<Option<Vec<u8>>, PageError>)
    ensures
        match module_text(js@) {
            Err(e) => r == Err::<Option<Vec<u8>>, PageError>(e),
            Ok(None) => r matches Ok(None),
            Ok(Some(t)) => match base64_of(t) {
                None => r == Err::<Option<Vec<u8>>, PageError>(PageError::MalformedModule),
                Some(bytes) => if is_module(bytes) {
                    r matches Ok(Some(m)) && m@ == bytes
                } else {
                    r matches Ok(None)
                },
            },
        },
{
    match find_module_text(js) {
        Err(e) => Err(e),
        Ok(None) => Ok(None),
        Ok(Some(t)) => accept_module(base64_decode(t.as_str())),
    }
}

/// The key among what three patterns captured: the first that was found, in lower case.
pub open spec fn first_key(
    a: Option<Option<Seq<char>>>,
    b: Option<Option<Seq<char>>>,
    c: Option<Option<Seq<char>>>,
) -> Result<Option<Seq<char>>, PageError> {
    match (a, b, c) {
        (Some(x), Some(y), Some(z)) => Ok(
            if x is Some {
                Some(lower_of(x->0))
            } else if y is Some {
                Some(lower_of(y->0))
            } else if z is Some {
                Some(lower_of(z->0))
            } else {
                None
            },
        ),
        _ => Err(PageError::Pattern),
    }
}

/// A result with its key seen as characters.
pub open spec fn key_result(r: Result<Option<String>, PageError>) -> Result<
    Option<Seq<char>>,
    PageError,
> {
    match r {
        Ok(Some(s)) => Ok(Some(s@)),
        Ok(None) => Ok(None),
        Err(e) => Err(e),
    }
}

/// The key among what three patterns captured.
pub fn choose_key(
    a: Option<Option<String>>,
    b: Option<Option<String>>,
    c: Option<Option<String>>,
) -> (r: Result<Option<String>, PageError>)
    ensures
        key_result(r) == first_key(capture_view(a), capture_view(b), capture_view(c)),
{
    match (a, b, c) {
        (Some(x), Some(y), Some(z)) => {
            match x {
                Some(key) => {
                    return Ok(Some(lowercase(key.as_str())));
                },
                None => {},
            }
            match y {
                Some(key) => {
                    return Ok(Some(lowercase(key.as_str())));
                },
                None => {},
            }
            match z {
                Some(key) => Ok(Some(lowercase(key.as_str()))),
                None => Ok(None),
            }
        },
        _ => Err(PageError::Pattern),
    }
}

/// The static key in a script, nothing if the script holds none.
pub fn key_in_script(js: &str) -> (r: Result<Option<String>, PageError>)
    ensures
        key_result(r) == first_key(
            regex_capture(KEY_PATTERN_EXPORT@, js@, 1),
            regex_capture(KEY_PATTERN_MEMBER@, js@, 1),
            regex_capture(KEY_PATTERN_MODULE@, js@, 1),
        ),
{
    choose_key(
        capture(KEY_PATTERN_EXPORT, js, 1),
        capture(KEY_PATTERN_MEMBER, js, 1),
        capture(KEY_PATTERN_MODULE, js, 1),
    )
}

/// A search through the scripts of a page, one after the other.
#[derive(Debug)]
pub struct ScriptSearch {
    pub addresses: Vec<String>,
    /// How many scripts were asked for.
    pub position: usize,
}

/// The mathematical counterpart of [`ScriptSearch`].
#[verifier::ext_equal]
pub ghost struct SearchView {
    pub addresses: Seq<Seq<char>>,
    pub position: int,
}

impl View for ScriptSearch {
    type V = SearchView;

    open spec fn view(&self) -> SearchView {
        SearchView { addresses: texts(self.addresses@), position: self.position as int }
    }
}

impl SearchView {
    /// The script to ask for next.
    pub open spec fn next_address(self) -> Option<Seq<char>> {
        if 0 <= self.position < self.addresses.len() {
            Some(self.addresses[self.position])
        } else {
            None
        }
    }

    /// The search once the next script was asked for, if there is one.
    pub open spec fn advanced(self) -> SearchView {
        if self.next_address() is Some {
            SearchView { position: self.position + 1, ..self }
        } else {
            self
        }
    }

    /// The scripts that are asked for in `n` steps that find nothing.
    pub open spec fn asked(self, n: nat) -> Seq<Seq<char>>
        decreases n,
    {
        if n == 0 {
            Seq::empty()
        } else {
            match self.next_address() {
                Some(address) => seq![address] + self.advanced().asked((n - 1) as nat),
                None => Seq::empty(),
            }
        }
    }
}

/// While nothing is found, a search asks for every script once, in order.
pub proof fn law_search_asks_for_every_script(s: SearchView)
    requires
        0 <= s.position <= s.addresses.len(),
    ensures
        s.asked((s.addresses.len() - s.position) as nat) == s.addresses.skip(s.position),
    decreases s.addresses.len() - s.position,
{
    if s.position < s.addresses.len() {
        law_search_asks_for_every_script(s.advanced());
        assert(s.addresses.skip(s.position) =~= seq![s.addresses[s.position]]
            + s.addresses.skip(s.position + 1));
    } else {
        assert(s.addresses.skip(s.position) =~= Seq::empty());
    }
}

/// What to do next in a search for the decryption module.
#[derive(Debug)]
pub enum ModuleStep {
    /// Look into the script of that address.
    Fetch(String),
    /// Use the module.
    Found(Vec<u8>),
    /// Give up.
    Fail(PageError),
}

/// What to do next in a search for the static key.
#[derive(Debug)]
pub enum KeyStep {
    /// Look into the script of that address.
    Fetch(String),
    /// Use the key.
    Found(String),
    /// Give up.
    Fail(PageError),
}

impl ScriptSearch {
    /// A search that starts with the first address.
    pub fn new(addresses: Vec<String>) -> (r: ScriptSearch)
        ensures
            r@ == (SearchView { addresses: texts(addresses@), position: 0 }),
    {
        ScriptSearch { addresses, position: 0 }
    }

    /// Goes on to the next script.
    fn advance(&mut self) -> (r: Option<String>)
        ensures
            final(self)@ == old(self)@.advanced(),
            match r {
                Some(address) => old(self)@.next_address() == Some(address@),
                None => old(self)@.next_address() is None,
            },
    {
        if self.position < self.addresses.len() {
            let address = self.addresses[self.position].clone();
            self.position += 1;
            Some(address)
        } else {
            None
        }
    }

    /// What to do once a script was searched for the module: the next script comes if it held
    /// none. A page must have scripts, and one of them the module.
    pub fn next_for_module(&mut self, found: Result<Option<Vec<u8>>, PageError>) -> (r: ModuleStep)
        ensures
            match found {
                Err(e) => final(self)@ == old(self)@ && r == ModuleStep::Fail(e),
                Ok(Some(module)) => final(self)@ == old(self)@ && r == ModuleStep::Found(module),
                Ok(None) => final(self)@ == old(self)@.advanced() && match old(self)@.next_address() {
                    Some(address) => r matches ModuleStep::Fetch(a) && a@ == address,
                    None => r == ModuleStep::Fail(
                        if old(self)@.addresses.len() == 0 {
                            PageError::NoScripts
                        } else {
                            PageError::NoModule
                        },
                    ),
                },
            },
    {
        match found {
            Err(e) => ModuleStep::Fail(e),
            Ok(Some(module)) => ModuleStep::Found(module),
            Ok(None) => match self.advance() {
                Some(address) => ModuleStep::Fetch(address),
                None => if self.addresses.len() == 0 {
                    ModuleStep::Fail(PageError::NoScripts)
                } else {
                    ModuleStep::Fail(PageError::NoModule)
                },
            },
        }
    }

    /// What to do once a script was searched for the key: the next script comes if it held none,
    /// and behind the last one the known key is used.
    pub fn next_for_key(&mut self, found: Result<Option<String>, PageError>) -> (r: KeyStep)
        ensures
            match found {
                Err(e) => final(self)@ == old(self)@ && r == KeyStep::Fail(e),
                Ok(Some(key)) => final(self)@ == old(self)@ && r == KeyStep::Found(key),
                Ok(None) => final(self)@ == old(self)@.advanced() && match old(self)@.next_address() {
                    Some(address) => r matches KeyStep::Fetch(a) && a@ == address,
                    None => r matches KeyStep::Found(key) && key@ == STATIC_KEY@,
                },
            },
    {
        match found {
            Err(e) => KeyStep::Fail(e),
            Ok(Some(key)) => KeyStep::Found(key),
            Ok(None) => match self.advance() {
                Some(address) => KeyStep::Fetch(address),
                None => KeyStep::Found(crate::attributes::own(STATIC_KEY)),
            },
        }
    }
}

/// The model's key in a page.
pub fn model_key(html: &str) -> (r: Result<String, PageError>)
    ensures
        text_result(r) == needed(
            regex_capture(MODEL_KEY_PATTERN@, html@, 2),
            PageError::NoModelKey,
        ),
{
    need(capture(MODEL_KEY_PATTERN, html, 2), PageError::NoModelKey)
}

/// The address of the model's files, from that of the first of them.
pub fn directory_of(file: &str) -> (r: String)
    ensures
        r@ == trimmed_end_of(file@, "/file.binz"@),
{
    proof {
        reveal_strlit("/file.binz");
    }
    trim_end(file, "/file.binz")
}

/// The address of the model's files in a page.
pub fn file_address(html: &str) -> (r: Result<String, PageError>)
    ensures
        match needed(regex_capture(FILE_PATTERN@, html@, 0), PageError::NoFileAddress) {
            Ok(file) => r matches Ok(s) && s@ == trimmed_end_of(file, "/file.binz"@),
            Err(e) => r == Err::<String, PageError>(e),
        },
{
    match need(capture(FILE_PATTERN, html, 0), PageError::NoFileAddress) {
        Ok(file) => Ok(directory_of(file.as_str())),
        Err(e) => Err(e),
    }
}

/// A page's text with its character references written out.
pub open spec fn unescaped(s: Seq<char>) -> Seq<char> {
    replaced_of(
        replaced_of(
            replaced_of(replaced_of(s, "&amp;"@, "&"@), "&lt;"@, "<"@),
            "&gt;"@,
            ">"@,
        ),
        "&#39;"@,
        "'"@,
    )
}

/// Writes out the character references of a page's text.
pub fn unescape(s: &str) -> (r: String)
    ensures
        r@ == unescaped(s@),
{
    proof {
        reveal_strlit("&amp;");
        reveal_strlit("&lt;");
        reveal_strlit("&gt;");
        reveal_strlit("&#39;");
    }
    let one = replace_text(s, "&amp;", "&");
    let two = replace_text(one.as_str(), "&lt;", "<");
    let three = replace_text(two.as_str(), "&gt;", ">");
    replace_text(three.as_str(), "&#39;", "'")
}

/// What stands before a model's description in a page.
pub const DESCRIPTION_START: &'static str = "id=\"js-dom-data-prefetched-data\"><!--";

/// What stands behind it.
pub const DESCRIPTION_END: &'static str = "--></div>";

/// The model's description in a page, as text.
pub open spec fn description_of(html: Seq<char>) -> Result<Seq<char>, PageError> {
    match find_of(html, DESCRIPTION_START@, 0) {
        None => Err(PageError::NoDescription),
        Some(at) => {
            let start = at + DESCRIPTION_START@.len();
            match find_of(html, DESCRIPTION_END@, start) {
                None => Err(PageError::OpenDescription),
                Some(end) => Ok(unescaped(html.subrange(start, end))),
            }
        },
    }
}

/// The model's description in a page, as text.
pub fn prefetched_data(html: &str) -> (r: Result<String, PageError>)
    ensures
        text_result(r) == description_of(html@),
{
    let s = chars_of(html);
    let total: usize = s.len();
    let marker = chars_of(DESCRIPTION_START);
    assert(total == s@.len());
    let start: usize = match find_chars(s.as_slice(), marker.as_slice(), 0) {
        Some(at) => at + marker.len(),
        None => {
            return Err(PageError::NoDescription);
        },
    };
    let close = chars_of(DESCRIPTION_END);
    let end: usize = match find_chars(s.as_slice(), close.as_slice(), start) {
        Some(at) => at,
        None => {
            return Err(PageError::OpenDescription);
        },
    };
    let inside = string_of(part_of(s.as_slice(), start, end).as_slice());
    Ok(unescape(inside.as_str()))
}

/// What is looked for in a page and in scripts: a model's number of 32 hexadecimal digits, the
/// viewer's scripts, the model's key with its bytes in the second group, the address of its first
/// file, and three ways in which a script can hold the static key of forty hexadecimal digits.
pub proof fn law_patterns()
    ensures
        MODEL_PATTERN@ == "([a-f0-9]{32})"@,
        SCRIPT_PATTERN@ == "https://static\\.sketchfab\\.com/static/builds/web/dist/[^\\\"&]+\\.js"@,
        MODEL_KEY_PATTERN@
            == "\"p\"\\s*:\\s*\\[\\{[^}]*\"v\"\\s*:\\s*(\\d+)[^}]*\"b\"\\s*:\\s*\"([^\"]+)\""@,
        FILE_PATTERN@ == "https://media\\.sketchfab\\.com/models/[^\"]*/files/[^\"]*/file\\.binz"@,
        KEY_PATTERN_EXPORT@
            == "exports\\s*\\.\\s*k\\s*:\\s*\\(\\)\\s*=>\\s*\\w+\\}\\s*;\\s*const\\s+\\w+\\s*=\\s*\"([0-9a-f]{40})\\\\n"@,
        KEY_PATTERN_MEMBER@
            == "\\{k:\\s*\\(\\)\\s*=>\\s*\\w+\\}[^;]*;\\s*const\\s+\\w+\\s*=\\s*\"([0-9a-f]{40})"@,
        KEY_PATTERN_MODULE@
            == "C04p\\s*:\\s*\\w+\\s*=>\\s*\\{\\s*\"use strict\";\\s*\\w+\\.exports\\s*=\\s*\"([0-9a-f]{40})\\\\n"@,
        DESCRIPTION_START@ == "id=\"js-dom-data-prefetched-data\"><!--"@,
        DESCRIPTION_END@ == "--></div>"@,
        STATIC_KEY@ == "77d92dd656ac3fdde472d5ba59747f42ac0ce217"@,
{
}

/// The description of a model is what stands between its marks, the first ones, with its character
/// references written out; a page without a mark, or without the second behind the first, has none.
pub proof fn law_description_stands_between_its_marks(
    before: Seq<char>,
    body: Seq<char>,
    after: Seq<char>,
)
    requires
        ({
            let html = before + DESCRIPTION_START@ + body + DESCRIPTION_END@ + after;
            let start = before.len() + DESCRIPTION_START@.len();
            &&& forall|k: int| 0 <= k < before.len() ==> !#[trigger] occurs_at(
                html,
                DESCRIPTION_START@,
                k,
            )
            &&& forall|k: int|
                start <= k < start + body.len() ==> !#[trigger] occurs_at(html, DESCRIPTION_END@, k)
        }),
    ensures
        description_of(before + DESCRIPTION_START@ + body + DESCRIPTION_END@ + after) == Ok::<
            Seq<char>,
            PageError,
        >(unescaped(body)),
{
    let html = before + DESCRIPTION_START@ + body + DESCRIPTION_END@ + after;
    let at = before.len() as int;
    let start = at + DESCRIPTION_START@.len();
    let end = start + body.len();
    assert(html.subrange(at, start) =~= DESCRIPTION_START@);
    law_text_is_found_where_it_stands(html, DESCRIPTION_START@, 0, at);
    assert(html.subrange(end, end + DESCRIPTION_END@.len()) =~= DESCRIPTION_END@);
    law_text_is_found_where_it_stands(html, DESCRIPTION_END@, start, end);
    assert(html.subrange(start, end) =~= body);
}

/// A text without an ampersand keeps its length and its characters when one reference is written
/// out.
proof fn lemma_reference(before: Seq<char>, reference: Seq<char>, after: Seq<char>, to: Seq<char>)
    requires
        reference.len() > 0,
        reference[0] == '&',
        !before.contains('&'),
        !after.contains('&'),
    ensures
        replaced_of(before + reference + after, reference, to) == before + to + after,
{
    law_text_is_replaced_where_it_stands(before, reference, after, to);
    law_other_text_stays(after, reference, to);
}

/// Nothing is replaced in a text that starts no reference of that kind.
proof fn lemma_no_reference(
    before: Seq<char>,
    other: Seq<char>,
    after: Seq<char>,
    reference: Seq<char>,
    to: Seq<char>,
)
    requires
        reference.len() > 1,
        other.len() > 1,
        reference[0] == '&',
        other[0] == '&',
        other[1] != reference[1],
        forall|k: int| 1 <= k < other.len() ==> #[trigger] other[k] != '&',
        !before.contains('&'),
        !after.contains('&'),
    ensures
        replaced_of(before + other + after, reference, to) == before + other + after,
    decreases before.len(),
{
    let s = before + other + after;
    if before.len() == 0 {
        assert(s[0] == '&' && s[1] == other[1]);
        if occurs_at(s, reference, 0) {
            assert(s.subrange(0, reference.len() as int)[1] == s[1]);
        }
        let rest = s.skip(1);
        assert(!rest.contains('&')) by {
            if rest.contains('&') {
                let k = choose|k: int| 0 <= k < rest.len() && rest[k] == '&';
                if k + 1 < other.len() {
                    assert(other[k + 1] == '&');
                } else {
                    assert(after[k + 1 - other.len()] == '&');
                }
            }
        }
        law_other_text_stays(rest, reference, to);
        assert(seq![s[0]] + rest =~= s);
    } else {
        assert(s[0] == before[0]);
        assert(before[0] != '&');
        if occurs_at(s, reference, 0) {
            assert(s.subrange(0, reference.len() as int)[0] == s[0]);
        }
        let rest = before.skip(1);
        assert(!rest.contains('&')) by {
            if rest.contains('&') {
                let k = choose|k: int| 0 <= k < rest.len() && rest[k] == '&';
                assert(before[k + 1] == '&');
            }
        }
        assert(s.skip(1) =~= rest + other + after);
        lemma_no_reference(rest, other, after, reference, to);
        assert(seq![s[0]] + (rest + other + after) =~= s);
    }
}

/// The character references of a description stand for their characters, wherever they are.
pub proof fn law_references_stand_for_their_characters(before: Seq<char>, after: Seq<char>)
    requires
        !before.contains('&'),
        !after.contains('&'),
    ensures
        unescaped(before + "&lt;"@ + after) == before + "<"@ + after,
        unescaped(before + "&gt;"@ + after) == before + ">"@ + after,
        unescaped(before + "&#39;"@ + after) == before + "'"@ + after,
        unescaped(before + after) == before + after,
        unquoted(before + "&#34;"@ + after) == before + "\""@ + after,
        unquoted(before + "&quot;"@ + after) == before + "\""@ + after,
        unquoted(before + after) == before + after,
{
    reveal_strlit("&amp;");
    reveal_strlit("&lt;");
    reveal_strlit("&gt;");
    reveal_strlit("&#39;");
    reveal_strlit("&#34;");
    reveal_strlit("&quot;");
    reveal_strlit("<");
    reveal_strlit(">");
    reveal_strlit("'");
    reveal_strlit("\"");
    let amp = "&amp;"@;
    let lt = "&lt;"@;
    let gt = "&gt;"@;
    let tick = "&#39;"@;
    let code = "&#34;"@;
    let quot = "&quot;"@;
    assert(amp[0] == '&' && amp[1] == 'a' && lt[0] == '&' && lt[1] == 'l' && gt[0] == '&' && gt[1]
        == 'g' && tick[0] == '&' && tick[1] == '#' && code[0] == '&' && code[1] == '#' && quot[0]
        == '&' && quot[1] == 'q');
    lemma_no_reference(before, lt, after, amp, "&"@);
    lemma_reference(before, lt, after, "<"@);
    lemma_plain(before, "<"@, after);
    lemma_stays_plain(before + "<"@ + after);
    lemma_no_reference(before, gt, after, amp, "&"@);
    lemma_no_reference(before, gt, after, lt, "<"@);
    lemma_reference(before, gt, after, ">"@);
    lemma_plain(before, ">"@, after);
    lemma_stays_plain(before + ">"@ + after);
    lemma_no_reference(before, tick, after, amp, "&"@);
    lemma_no_reference(before, tick, after, lt, "<"@);
    lemma_no_reference(before, tick, after, gt, ">"@);
    lemma_reference(before, tick, after, "'"@);
    assert(before + Seq::<char>::empty() =~= before);
    lemma_plain(before, Seq::empty(), after);
    lemma_stays_plain(before + after);
    lemma_reference(before, code, after, "\""@);
    lemma_plain(before, "\""@, after);
    lemma_stays_plain(before + "\""@ + after);
    lemma_no_reference(before, quot, after, code, "\""@);
    lemma_reference(before, quot, after, "\""@);
}

/// Texts without an ampersand make one without.
proof fn lemma_plain(a: Seq<char>, b: Seq<char>, c: Seq<char>)
    requires
        !a.contains('&'),
        !b.contains('&'),
        !c.contains('&'),
    ensures
        !(a + b + c).contains('&'),
{
    let s = a + b + c;
    if s.contains('&') {
        let k = choose|k: int| 0 <= k < s.len() && s[k] == '&';
        if k < a.len() {
            assert(a[k] == '&');
        } else if k < a.len() + b.len() {
            assert(b[k - a.len()] == '&');
        } else {
            assert(c[k - a.len() - b.len()] == '&');
        }
    }
}

/// A text without an ampersand has no references.
proof fn lemma_stays_plain(s: Seq<char>)
    requires
        !s.contains('&'),
    ensures
        replaced_of(s, "&amp;"@, "&"@) == s,
        replaced_of(s, "&lt;"@, "<"@) == s,
        replaced_of(s, "&gt;"@, ">"@) == s,
        replaced_of(s, "&#39;"@, "'"@) == s,
        replaced_of(s, "&#34;"@, "\""@) == s,
        replaced_of(s, "&quot;"@, "\""@) == s,
{
    reveal_strlit("&amp;");
    reveal_strlit("&lt;");
    reveal_strlit("&gt;");
    reveal_strlit("&#39;");
    reveal_strlit("&#34;");
    reveal_strlit("&quot;");
    law_other_text_stays(s, "&amp;"@, "&"@);
    law_other_text_stays(s, "&lt;"@, "<"@);
    law_other_text_stays(s, "&gt;"@, ">"@);
    law_other_text_stays(s, "&#39;"@, "'"@);
    law_other_text_stays(s, "&#34;"@, "\""@);
    law_other_text_stays(s, "&quot;"@, "\""@);
}

/// A module stands in a script as a string that starts with the letters of its first bytes in
/// base64: from the quotation mark before them up to the next one, without written line breaks.
pub proof fn law_module_stands_in_a_string(before: Seq<char>, body: Seq<char>, after: Seq<char>)
    requires
        !body.contains('"'),
        body.len() >= 6,
        body.take(6) == "AGFzbQ"@,
        body.last() != '\\',
        forall|k: int|
            0 <= k <= before.len() ==> !#[trigger] occurs_at(
                before + seq!['"'] + body + seq!['"'] + after,
                "AGFzbQ"@,
                k,
            ),
    ensures
        module_text(before + seq!['"'] + body + seq!['"'] + after) == Ok::<
            Option<Seq<char>>,
            PageError,
        >(Some(replaced_of(body, "\\n"@, Seq::empty()))),
{
    reveal_strlit("AGFzbQ");
    let js = before + seq!['"'] + body + seq!['"'] + after;
    let at = before.len() as int + 1;
    assert(js.subrange(at, at + 6) =~= body.take(6));
    assert("AGFzbQ"@.len() == 6);
    law_text_is_found_where_it_stands(js, "AGFzbQ"@, 0, at);
    assert(js[at - 1] == '"');
    assert(rfind_of(js, '"', at) == Some(at - 1));
    let end = at + body.len();
    assert forall|k: int| at <= k < end implies #[trigger] js[k] != '"' by {
        assert(js[k] == body[k - at]);
    }
    assert(js[end] == '"' && js[end - 1] == body.last());
    lemma_quote_is_at(js, at, end);
    assert(js.subrange(at, end) =~= body);
}

/// The next quotation mark that is not escaped.
proof fn lemma_quote_is_at(s: Seq<char>, from: int, at: int)
    requires
        0 < from <= at < s.len(),
        s[at] == '"',
        s[at - 1] != '\\',
        forall|k: int| from <= k < at ==> #[trigger] s[k] != '"',
    ensures
        quote_from(s, from) == Some(at),
    decreases at - from,
{
    if from < at {
        assert(s[from] != '"');
        lemma_quote_is_at(s, from + 1, at);
    }
}

/// A module starts with a zero byte and `asm`.
pub proof fn law_module_starts_with_its_mark(bytes: Seq<u8>)
    ensures
        is_module(bytes) <==> bytes.len() >= 4 && bytes.take(4) =~= seq![0u8, 0x61, 0x73, 0x6d],
{
    if bytes.len() >= 4 {
        let first = bytes.take(4);
        assert(first[0] == bytes[0] && first[1] == bytes[1] && first[2] == bytes[2] && first[3]
            == bytes[3]);
        assert(is_module(bytes) <==> first =~= seq![0u8, 0x61, 0x73, 0x6d]);
    }
}

/// The key of a script is what the first of the three patterns that matches captured, in small
/// letters.
pub proof fn law_first_key_counts(a: Option<Seq<char>>, b: Option<Seq<char>>, c: Option<Seq<char>>)
    ensures
        ({
            let r = first_key(Some(a), Some(b), Some(c));
            &&& a matches Some(x) ==> r == Ok::<Option<Seq<char>>, PageError>(Some(lower_of(x)))
            &&& a is None ==> (b matches Some(x) ==> r == Ok::<Option<Seq<char>>, PageError>(
                Some(lower_of(x)),
            ))
            &&& a is None && b is None ==> (c matches Some(x) ==> r == Ok::<
                Option<Seq<char>>,
                PageError,
            >(Some(lower_of(x))))
            &&& a is None && b is None && c is None ==> r == Ok::<Option<Seq<char>>, PageError>(None)
        }),
{
}

/// A written ampersand stands for one, before anything that does not make it a reference again.
pub proof fn law_written_ampersand_stands_for_one(before: Seq<char>, next: char, after: Seq<char>)
    requires
        !before.contains('&'),
        !after.contains('&'),
        next != '&' && next != 'l' && next != 'g' && next != '#',
    ensures
        unescaped(before + "&amp;"@ + (seq![next] + after)) == before + "&"@ + (seq![next] + after),
{
    reveal_strlit("&amp;");
    reveal_strlit("&lt;");
    reveal_strlit("&gt;");
    reveal_strlit("&#39;");
    reveal_strlit("&");
    let amp = "&amp;"@;
    let lt = "&lt;"@;
    let gt = "&gt;"@;
    let tick = "&#39;"@;
    assert(amp[0] == '&' && lt[0] == '&' && lt[1] == 'l' && gt[0] == '&' && gt[1] == 'g' && tick[0]
        == '&' && tick[1] == '#');
    let tail = seq![next] + after;
    assert(!tail.contains('&')) by {
        if tail.contains('&') {
            let k = choose|k: int| 0 <= k < tail.len() && tail[k] == '&';
            if k > 0 {
                assert(after[k - 1] == '&');
            }
        }
    }
    lemma_reference(before, amp, tail, "&"@);
    let other = seq!['&', next];
    assert(before + "&"@ + tail =~= before + other + after);
    lemma_no_reference(before, other, after, lt, "<"@);
    lemma_no_reference(before, other, after, gt, ">"@);
    lemma_no_reference(before, other, after, tick, "'"@);
}

/// The address of a model's files is that of the first of them without its name.
pub proof fn law_files_stand_beside_the_first(file: &str, r: String, folder: Seq<char>)
    requires
        call_ensures(directory_of, (file,), r),
        file@ == folder + "/file.binz"@,
        !occurs_at(folder, "/file.binz"@, folder.len() - "/file.binz"@.len()),
    ensures
        r@ == folder,
{
    reveal_strlit("/file.binz");
    let part = "/file.binz"@;
    reveal_with_fuel(trimmed_end_of, 3);
    let s = file@;
    assert(s.subrange(s.len() - part.len(), s.len() as int) =~= part);
    assert(s.take(s.len() - part.len()) =~= folder);
}

} // verus!

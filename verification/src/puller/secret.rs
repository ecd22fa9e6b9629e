//! Credentials for registries.
use vstd::prelude::*;
use vstd::string::*;
use vstd::utf8::*;

use crate::puller::json::{self, Json};
use crate::text;

verus! {

/// Credentials for one registry.
// debug missing because it can accidentally reveal sensitive data
pub struct ImagePullSecret {
    pub registry: String,
    pub username: Option<String>,
    pub password: Option<String>,
}

/// What credentials amount to.
#[verifier::ext_equal]
pub ghost struct SecretView {
    pub registry: Seq<char>,
    pub username: Option<Seq<char>>,
    pub password: Option<Seq<char>>,
}

/// The text behind an optional string.
pub open spec fn text_of(string: Option<String>) -> Option<Seq<char>> {
    match string {
        Some(s) => Some(s@),
        None => None,
    }
}

impl View for ImagePullSecret {
    type V = SecretView;

    open spec fn view(&self) -> SecretView {
        SecretView {
            registry: self.registry@,
            username: text_of(self.username),
            password: text_of(self.password),
        }
    }
}

/// What `base64::decode` makes of a text: `None` if it is no base64.
pub uninterp spec fn base64_decoded(text: Seq<char>) -> Option<Seq<u8>>;

/// Calls `base64::decode`, which decodes base64 in the standard alphabet. The
/// outcome depends on the text alone; what it is for which text is not stated.
#[verifier::external_body]
fn base64_decode(text: &str) -> (bytes: Option<Vec<u8>>)
    ensures
        bytes is Some == base64_decoded(text@) is Some,
        bytes matches Some(b) ==> base64_decoded(text@) == Some(b@),
{
    base64::decode(text).ok()
}

/// How many characters there are before the first colon, or at all if there is none.
pub open spec fn colon_at(pair: Seq<char>) -> nat
    decreases pair.len(),
{
    if pair.len() == 0 || pair[0] == ':' {
        0
    } else {
        1 + colon_at(pair.drop_first())
    }
}

/// The credentials in `login:password`. The login ends at the first colon.
pub open spec fn credentials(registry: Seq<char>, pair: Seq<char>) -> Option<SecretView> {
    let colon = colon_at(pair) as int;
    if colon < pair.len() {
        Some(
            SecretView {
                registry,
                username: Some(pair.take(colon)),
                password: Some(pair.skip(colon + 1)),
            },
        )
    } else {
        None
    }
}

/// The credentials in the decoded `auth` of a registry.
pub open spec fn decoded_credentials(registry: Seq<char>, decoded: Option<Seq<u8>>) -> Option<
    SecretView,
> {
    match decoded {
        Some(bytes) => if valid_utf8(bytes) {
            credentials(registry, decode_utf8(bytes))
        } else {
            None
        },
        None => None,
    }
}

/// The credentials in what a docker config says of a registry.
pub open spec fn entry_credentials(registry: Seq<char>, auth_data: json::JsonView) -> Option<SecretView> {
    match auth_data.get("auth"@) {
        Some(json::JsonView::String(auth)) => decoded_credentials(registry, base64_decoded(auth)),
        _ => None,
    }
}

/// All credentials in what a docker config says of its registries, in that order.
pub open spec fn all_credentials(auths: Seq<(Seq<char>, json::JsonView)>) -> Seq<SecretView>
    decreases auths.len(),
{
    if auths.len() == 0 {
        Seq::empty()
    } else {
        let earlier = all_credentials(auths.drop_last());
        match entry_credentials(auths.last().0, auths.last().1) {
            Some(secret) => earlier.push(secret),
            None => earlier,
        }
    }
}

/// All credentials in a docker config. `None` if it does not speak of registries.
pub open spec fn config_credentials(config: json::JsonView) -> Option<Seq<SecretView>> {
    match config.get("auths"@) {
        Some(json::JsonView::Object(auths)) => Some(all_credentials(auths)),
        _ => None,
    }
}

/// What the entries of a Kubernetes Secret amount to.
pub open spec fn pairs_view(pairs: Seq<(String, String)>) -> Seq<(Seq<char>, Seq<char>)> {
    pairs.map_values(|p: (String, String)| (p.0@, p.1@))
}

/// What a Kubernetes Secret holds under the key for docker configs.
pub open spec fn stored_config(string_data: Option<Vec<(String, String)>>) -> Option<Seq<char>> {
    match string_data {
        Some(data) => json::lookup(pairs_view(data@), ".dockerconfigjson"@),
        None => None,
    }
}

/// The docker config in a Kubernetes Secret, before it is parsed.
pub open spec fn embedded_config(string_data: Option<Vec<(String, String)>>) -> Option<Seq<u8>> {
    match stored_config(string_data) {
        Some(encoded) => base64_decoded(encoded),
        None => None,
    }
}

/// All credentials in the docker config of a Kubernetes Secret. `None` if there is
/// no such config, or if it cannot be decoded or does not speak of registries.
pub open spec fn kubernetes_credentials(string_data: Option<Vec<(String, String)>>) -> Option<
    Seq<SecretView>,
> {
    match embedded_config(string_data) {
        Some(bytes) => match json::parsed_json(bytes) {
            Some(config) => config_credentials(config),
            None => None,
        },
        None => None,
    }
}

/// What optional credentials amount to.
pub open spec fn secret_view(secret: Option<ImagePullSecret>) -> Option<SecretView> {
    match secret {
        Some(s) => Some(s@),
        None => None,
    }
}

/// What a list of credentials amounts to.
pub open spec fn secrets_view(secrets: Seq<ImagePullSecret>) -> Seq<SecretView> {
    secrets.map_values(|s: ImagePullSecret| s@)
}

/// How credentials are shown. The password is not.
pub open spec fn shown(secret: SecretView) -> Seq<char> {
    let username = match secret.username {
        Some(u) => u,
        None => "<missing>"@,
    };
    let password = match secret.password {
        Some(_) => "<provided>"@,
        None => "<missing>"@,
    };
    "registry: "@ + secret.registry + "; username: "@ + username + ", password: "@ + password
}

impl ImagePullSecret {
    /// Tries to find `ImagePullSecret`s in parsed docker config.
    pub fn parse_docker_config(docker_config: &Json) -> (found: Option<Vec<ImagePullSecret>>)
        ensures
            match config_credentials(docker_config@) {
                Some(expected) => found matches Some(secrets) && secrets_view(secrets@) == expected,
                None => found is None,
            },
    {
        let auths = match docker_config.get("auths") {
            Some(auths) => auths,
            None => {
                return None;
            },
        };
        let ghost view = auths@;
        let auths = match auths.as_object() {
            Some(auths) => auths,
            None => {
                return None;
            },
        };
        let ghost all = view->Object_0;
        let mut secrets: Vec<ImagePullSecret> = Vec::new();
        assert(secrets_view(secrets@) =~= all_credentials(all.take(0)));
        for i in 0..auths.len()
            invariant
                auths.len() == all.len(),
                forall|k: int|
                    0 <= k < all.len() ==> (#[trigger] auths@[k]).0@ == all[k].0 && auths@[k].1@
                        == all[k].1,
                secrets_view(secrets@) == all_credentials(all.take(i as int)),
        {
            let ghost before = secrets@;
            assert(all.take(i + 1).drop_last() =~= all.take(i as int));
            assert(auths@[i as int].1@ == all[i as int].1);
            if let Some(sec) = Self::parse_from_docker_config_auth_entry(
                auths[i].0.as_str(),
                &auths[i].1,
            ) {
                secrets.push(sec);
                assert(secrets_view(secrets@) =~= secrets_view(before).push(sec@));
            }
        }
        assert(all.take(all.len() as int) =~= all);
        Some(secrets)
    }

    /// Tries to find `ImagePullSecret`s in Kubernetes Secret, given the entries of
    /// its `stringData`.
    pub fn parse_kubernetes_secret(string_data: &Option<Vec<(String, String)>>) -> (found: Option<
        Vec<ImagePullSecret>,
    >)
        ensures
            match kubernetes_credentials(*string_data) {
                Some(expected) => found matches Some(secrets) && secrets_view(secrets@) == expected,
                None => found is None,
            },
    {
        let encoded = match Self::find_docker_config(string_data) {
            Some(encoded) => encoded,
            None => {
                return None;
            },
        };
        let bytes = match base64_decode(encoded) {
            Some(bytes) => bytes,
            None => {
                return None;
            },
        };
        match Json::parse(bytes.as_slice()) {
            Some(docker_config) => Self::parse_docker_config(&docker_config),
            None => None,
        }
    }

    /// The entry of a Kubernetes Secret that holds a docker config.
    fn find_docker_config(string_data: &Option<Vec<(String, String)>>) -> (found: Option<&str>)
        ensures
            match stored_config(*string_data) {
                Some(expected) => found matches Some(encoded) && encoded@ == expected,
                None => found is None,
            },
    {
        let data = match string_data {
            Some(data) => data,
            None => {
                return None;
            },
        };
        let ghost all = pairs_view(data@);
        assert(all.skip(0) =~= all);
        for i in 0..data.len()
            invariant
                *string_data == Some(*data),
                all == pairs_view(data@),
                json::lookup(all, ".dockerconfigjson"@) == json::lookup(
                    all.skip(i as int),
                    ".dockerconfigjson"@,
                ),
        {
            assert(all.skip(i as int).drop_first() =~= all.skip(i + 1));
            assert(all[i as int] == (data@[i as int].0@, data@[i as int].1@));
            if text::same(data[i].0.as_str(), ".dockerconfigjson") {
                return Some(data[i].1.as_str());
            }
        }
        None
    }

    /// Tries to find the credentials in what a docker config says of a registry.
    pub fn parse_from_docker_config_auth_entry(registry: &str, auth_data: &Json) -> (found: Option<
        ImagePullSecret,
    >)
        ensures
            secret_view(found) == entry_credentials(registry@, auth_data@),
    {
        let auth = match auth_data.get("auth") {
            Some(auth) => auth,
            None => {
                return None;
            },
        };
        match auth.as_str() {
            Some(auth) => Self::from_decoded_auth(registry, base64_decode(auth)),
            None => None,
        }
    }

    /// Tries to find the credentials in the decoded `auth` of a registry.
    pub fn from_decoded_auth(registry: &str, decoded: Option<Vec<u8>>) -> (found: Option<
        ImagePullSecret,
    >)
        ensures
            secret_view(found) == decoded_credentials(
                registry@,
                match decoded {
                    Some(bytes) => Some(bytes@),
                    None => None,
                },
            ),
    {
        match decoded {
            Some(bytes) => match text::from_utf8(bytes) {
                Some(pair) => {
                    proof {
                        encode_utf8_decode_utf8(pair@);
                    }
                    Self::from_login_and_password(registry, pair.as_str())
                },
                None => None,
            },
            None => None,
        }
    }

    /// Tries to split `login:password`. The login ends at the first colon.
    pub fn from_login_and_password(registry: &str, pair: &str) -> (found: Option<ImagePullSecret>)
        ensures
            secret_view(found) == credentials(registry@, pair@),
    {
        let len: usize = pair.unicode_len();
        let mut colon: usize = 0;
        let mut seen: bool = false;
        assert(pair@.skip(0) =~= pair@);
        for c in it: pair.chars()
            invariant
                it.seq() == pair@,
                len == pair@.len(),
                !seen ==> colon == it.index() && colon_at(pair@) == colon + colon_at(
                    pair@.skip(colon as int),
                ),
                seen ==> colon < pair@.len() && colon_at(pair@) == colon,
        {
            if !seen {
                assert(pair@.skip(colon as int).drop_first() =~= pair@.skip(colon + 1));
                if c == ':' {
                    seen = true;
                } else {
                    colon = colon + 1;
                }
            }
        }
        if !seen {
            return None;
        }
        let login = pair.substring_char(0, colon);
        let password = pair.substring_char(colon + 1, len);
        Some(
            ImagePullSecret {
                registry: registry.to_owned(),
                username: Some(login.to_owned()),
                password: Some(password.to_owned()),
            },
        )
    }

    /// How the credentials are shown. The password is not.
    pub fn to_text(&self) -> (shown_text: String)
        ensures
            shown_text@ == shown(self@),
    {
        let username = match &self.username {
            Some(u) => u.as_str(),
            None => "<missing>",
        };
        let password = match &self.password {
            Some(_) => "<provided>",
            None => "<missing>",
        };
        let mut shown_text: String = "registry: ".to_owned();
        shown_text.append(self.registry.as_str());
        shown_text.append("; username: ");
        shown_text.append(username);
        shown_text.append(", password: ");
        shown_text.append(password);
        shown_text
    }
}

proof fn lemma_colon_at(pair: Seq<char>)
    ensures
        colon_at(pair) <= pair.len(),
        !pair.take(colon_at(pair) as int).contains(':'),
        colon_at(pair) < pair.len() ==> pair[colon_at(pair) as int] == ':',
    decreases pair.len(),
{
    if pair.len() > 0 && pair[0] != ':' {
        let rest = pair.drop_first();
        lemma_colon_at(rest);
        let n = colon_at(rest) as int;
        if pair.take(n + 1).contains(':') {
            let k = pair.take(n + 1).index_of(':');
            assert(rest.take(n)[k - 1] == ':');
        }
    }
}

proof fn lemma_login_ends_at_colon(login: Seq<char>, password: Seq<char>)
    requires
        !login.contains(':'),
    ensures
        colon_at(login + seq![':'] + password) == login.len(),
    decreases login.len(),
{
    let pair = login + seq![':'] + password;
    if login.len() > 0 {
        let rest = login.drop_first();
        assert(login[0] != ':');
        assert forall|k: int| 0 <= k < rest.len() implies rest[k] != ':' by {
            assert(login[k + 1] == rest[k]);
        }
        lemma_login_ends_at_colon(rest, password);
        assert(pair.drop_first() =~= rest + seq![':'] + password);
    }
}

/// A login without colons and any password are read back from `login:password`.
pub proof fn law_credentials_are_read_back(
    registry: Seq<char>,
    login: Seq<char>,
    password: Seq<char>,
)
    requires
        !login.contains(':'),
    ensures
        credentials(registry, login + seq![':'] + password) == Some(
            SecretView { registry, username: Some(login), password: Some(password) },
        ),
{
    let pair = login + seq![':'] + password;
    lemma_login_ends_at_colon(login, password);
    assert(pair.take(login.len() as int) =~= login);
    assert(pair.skip((login.len() + 1) as int) =~= password);
}

/// There are credentials in a text exactly if it holds a colon. Then the login
/// holds none, and login and password make up the text.
pub proof fn law_credentials_are_split_at_first_colon(registry: Seq<char>, pair: Seq<char>)
    ensures
        credentials(registry, pair) is Some <==> pair.contains(':'),
        credentials(registry, pair) matches Some(secret) ==> {
            &&& secret.registry == registry
            &&& !secret.username->0.contains(':')
            &&& secret.username->0 + seq![':'] + secret.password->0 == pair
        },
{
    lemma_colon_at(pair);
    let n = colon_at(pair) as int;
    if n < pair.len() {
        assert(pair.take(n) + seq![':'] + pair.skip(n + 1) =~= pair);
    } else {
        assert(pair.take(n) =~= pair);
    }
}

/// What is shown of credentials does not depend on the password, only on
/// whether there is one.
pub proof fn law_password_is_not_shown(
    secret: SecretView,
    password: Option<Seq<char>>,
)
    requires
        secret.password is Some <==> password is Some,
    ensures
        shown(SecretView { password, ..secret }) == shown(secret),
{
}

/// Whether a field of an entry of `auths` says, in base64, that login and password
/// are these: it is the first one called `auth`. Other fields do not matter.
pub open spec fn field_says(
    fields: Seq<(Seq<char>, json::JsonView)>,
    k: int,
    login: Seq<char>,
    password: Seq<char>,
) -> bool {
    &&& 0 <= k < fields.len()
    &&& fields[k].0 == "auth"@
    &&& forall|j: int| 0 <= j < k ==> (#[trigger] fields[j]).0 != "auth"@
    &&& fields[k].1 matches json::JsonView::String(auth) && base64_decoded(auth) == Some(
        encode_utf8(login + seq![':'] + password),
    )
}

/// Whether an entry of `auths` says that login and password are these. The login
/// holds no colon.
pub open spec fn entry_says(
    entry: (Seq<char>, json::JsonView),
    login: Seq<char>,
    password: Seq<char>,
) -> bool {
    &&& !login.contains(':')
    &&& entry.1 matches json::JsonView::Object(fields) && exists|k: int| #[trigger]
        field_says(fields, k, login, password)
}

/// Credentials are read from an entry exactly if it says what they are, and then
/// they are these, for the registry that the entry is about.
pub proof fn law_entry_is_read(
    registry: Seq<char>,
    auth_data: json::JsonView,
    login: Seq<char>,
    password: Seq<char>,
)
    ensures
        entry_says((registry, auth_data), login, password) <==> entry_credentials(
            registry,
            auth_data,
        ) == Some(SecretView { registry, username: Some(login), password: Some(password) }),
        entry_credentials(registry, auth_data) matches Some(secret) ==> {
            &&& secret.registry == registry
            &&& secret.username is Some
            &&& secret.password is Some
        },
{
    let pair = login + seq![':'] + password;
    let secret = SecretView { registry, username: Some(login), password: Some(password) };
    if entry_says((registry, auth_data), login, password) {
        let fields = auth_data->Object_0;
        let k = choose|k: int| #[trigger] field_says(fields, k, login, password);
        json::law_first_entry_counts(fields, "auth"@, k);
        encode_utf8_valid_utf8(pair);
        encode_utf8_decode_utf8(pair);
        law_credentials_are_read_back(registry, login, password);
    }
    if entry_credentials(registry, auth_data) == Some(secret) {
        let fields = auth_data->Object_0;
        json::law_first_entry_counts(fields, "auth"@, 0);
        let k = choose|k: int|
            0 <= k < fields.len() && (#[trigger] fields[k]).0 == "auth"@ && json::lookup(
                fields,
                "auth"@,
            ) == Some(fields[k].1) && (forall|i: int|
                0 <= i < k ==> (#[trigger] fields[i]).0 != "auth"@);
        let auth = fields[k].1->String_0;
        let bytes = base64_decoded(auth)->0;
        let text = decode_utf8(bytes);
        decode_utf8_encode_utf8(bytes);
        law_credentials_are_split_at_first_colon(registry, text);
        assert(text == pair);
        assert(field_says(fields, k, login, password));
    }
}

/// Whether an entry of `auths` says what the credentials are.
pub open spec fn says_something(entry: (Seq<char>, json::JsonView)) -> bool {
    exists|login: Seq<char>, password: Seq<char>| #[trigger] entry_says(entry, login, password)
}

/// Every entry that says what the credentials are is read, in order, and no other:
/// there is one result for each of them, with its registry, login and password.
pub proof fn law_all_entries_are_read(auths: Seq<(Seq<char>, json::JsonView)>)
    ensures
        ({
            let telling = auths.filter(|e: (Seq<char>, json::JsonView)| says_something(e));
            let found = all_credentials(auths);
            &&& found.len() == telling.len()
            &&& forall|i: int|
                0 <= i < found.len() ==> {
                    &&& (#[trigger] found[i]).registry == telling[i].0
                    &&& found[i].username is Some
                    &&& found[i].password is Some
                    &&& entry_says(telling[i], found[i].username->0, found[i].password->0)
                }
        }),
    decreases auths.len(),
{
    reveal(Seq::filter);
    let tells = |e: (Seq<char>, json::JsonView)| says_something(e);
    let telling = auths.filter(tells);
    let found = all_credentials(auths);
    if auths.len() > 0 {
        law_all_entries_are_read(auths.drop_last());
        let entry = auths.last();
        let earlier = auths.drop_last().filter(tells);
        let before = all_credentials(auths.drop_last());
        match entry_credentials(entry.0, entry.1) {
            Some(secret) => {
                law_entry_is_read(entry.0, entry.1, Seq::empty(), Seq::empty());
                law_entry_is_read(entry.0, entry.1, secret.username->0, secret.password->0);
                assert(secret == (SecretView {
                    registry: entry.0,
                    username: Some(secret.username->0),
                    password: Some(secret.password->0),
                }));
                assert(entry_says(entry, secret.username->0, secret.password->0));
                assert forall|i: int| 0 <= i < found.len() implies {
                    &&& (#[trigger] found[i]).registry == telling[i].0
                    &&& found[i].username is Some
                    &&& found[i].password is Some
                    &&& entry_says(telling[i], found[i].username->0, found[i].password->0)
                } by {
                    if i < before.len() {
                        assert(found[i] == before[i]);
                        assert(telling[i] == earlier[i]);
                    }
                }
            },
            None => {
                assert forall|login: Seq<char>, password: Seq<char>| !(#[trigger] entry_says(
                    entry,
                    login,
                    password,
                )) by {
                    law_entry_is_read(entry.0, entry.1, login, password);
                }
            },
        }
    }
}

/// A docker config speaks of registries exactly if it is an object whose first field
/// called `auths` is an object, and then all entries of that object are read. Other
/// fields do not matter.
pub proof fn law_config_is_read(config: json::JsonView, k: int)
    ensures
        config matches json::JsonView::Object(fields) ==> {
            &&& (0 <= k < fields.len() && fields[k].0 == "auths"@ && (forall|j: int|
                0 <= j < k ==> (#[trigger] fields[j]).0 != "auths"@))
                ==> config_credentials(config) == match fields[k].1 {
                json::JsonView::Object(auths) => Some(all_credentials(auths)),
                _ => None,
            }
            &&& (forall|j: int| 0 <= j < fields.len() ==> (#[trigger] fields[j]).0 != "auths"@)
                ==> config_credentials(config) is None
        },
        !(config is Object) ==> config_credentials(config) is None,
{
    if let json::JsonView::Object(fields) = config {
        json::law_first_entry_counts(fields, "auths"@, k);
    }
}

/// What is decoded is read as text, whatever its length, and refused if it is none.
pub proof fn law_decoded_text_is_read(registry: Seq<char>, pair: Seq<char>, bytes: Seq<u8>)
    ensures
        decoded_credentials(registry, Some(encode_utf8(pair))) == credentials(registry, pair),
        !valid_utf8(bytes) ==> decoded_credentials(registry, Some(bytes)) is None,
        decoded_credentials(registry, None) is None,
{
    encode_utf8_valid_utf8(pair);
    encode_utf8_decode_utf8(pair);
}

/// Of a Kubernetes Secret the first entry called `.dockerconfigjson` counts,
/// wherever it is: what is decoded and parsed from it is read as a docker config.
/// If there is no such entry, or it cannot be decoded or parsed, there are no
/// credentials.
pub proof fn law_kubernetes_secret_is_read(data: Vec<(String, String)>, k: int)
    ensures
        (0 <= k < data@.len() && data@[k].0@ == ".dockerconfigjson"@ && (forall|j: int|
            0 <= j < k ==> (#[trigger] data@[j]).0@ != ".dockerconfigjson"@))
            ==> kubernetes_credentials(Some(data)) == match base64_decoded(data@[k].1@) {
            Some(bytes) => match json::parsed_json(bytes) {
                Some(config) => config_credentials(config),
                None => None,
            },
            None => None,
        },
        (forall|j: int| 0 <= j < data@.len() ==> (#[trigger] data@[j]).0@ != ".dockerconfigjson"@)
            ==> kubernetes_credentials(Some(data)) is None,
        kubernetes_credentials(None) is None,
{
    let pairs = pairs_view(data@);
    assert forall|j: int| 0 <= j < data@.len() implies #[trigger] pairs[j] == (
        data@[j].0@,
        data@[j].1@,
    ) by {}
    json::law_first_entry_counts(pairs, ".dockerconfigjson"@, k);
    if 0 <= k < data@.len() && data@[k].0@ == ".dockerconfigjson"@ && (forall|j: int|
        0 <= j < k ==> (#[trigger] data@[j]).0@ != ".dockerconfigjson"@) {
        assert forall|j: int| 0 <= j < k implies (#[trigger] pairs[j]).0 != ".dockerconfigjson"@ by {
            assert(data@[j].0@ != ".dockerconfigjson"@);
        }
    }
    if forall|j: int| 0 <= j < data@.len() ==> (#[trigger] data@[j]).0@ != ".dockerconfigjson"@ {
        assert forall|j: int| 0 <= j < pairs.len() implies (#[trigger] pairs[j]).0
            != ".dockerconfigjson"@ by {
            assert(data@[j].0@ != ".dockerconfigjson"@);
        }
    }
}

/// Credentials amount to what they hold, and lists of them to all of theirs.
pub proof fn law_secrets_amount_to_what_they_hold(
    secret: ImagePullSecret,
    secrets: Seq<ImagePullSecret>,
    i: int,
)
    ensures
        secret@.registry == secret.registry@,
        secret.username matches Some(u) ==> secret@.username == Some(u@),
        secret.username is None ==> secret@.username is None,
        secret.password matches Some(p) ==> secret@.password == Some(p@),
        secret.password is None ==> secret@.password is None,
        secret_view(Some(secret)) == Some(secret@),
        secret_view(None) is None,
        secrets_view(secrets).len() == secrets.len(),
        0 <= i < secrets.len() ==> secrets_view(secrets)[i] == secrets[i]@,
{
}

/// Registry and user name are shown in full, and of the password whether there is one.
pub proof fn law_all_but_the_password_is_shown(
    registry: Seq<char>,
    username: Seq<char>,
    password: Seq<char>,
)
    ensures
        shown(SecretView { registry, username: Some(username), password: Some(password) })
            == "registry: "@ + registry + "; username: "@ + username + ", password: "@
            + "<provided>"@,
        shown(SecretView { registry, username: Some(username), password: None }) == "registry: "@
            + registry + "; username: "@ + username + ", password: "@ + "<missing>"@,
        shown(SecretView { registry, username: None, password: Some(password) }) == "registry: "@
            + registry + "; username: "@ + "<missing>"@ + ", password: "@ + "<provided>"@,
        shown(SecretView { registry, username: None, password: None }) == "registry: "@ + registry
            + "; username: "@ + "<missing>"@ + ", password: "@ + "<missing>"@,
{
}

} // verus!

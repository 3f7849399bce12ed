use vstd::prelude::*;
use vstd::string::{StrSliceExecFns, StringExecFns};

verus! {

/// The value of the last pair whose key is `k`, as a map built from the
/// pairs in order would hold it.
pub open spec fn lookup<V>(pairs: Seq<(Seq<char>, V)>, k: Seq<char>) -> Option<V>
    decreases pairs.len(),
{
    if pairs.len() == 0 {
        None
    } else if pairs.last().0 == k {
        Some(pairs.last().1)
    } else {
        lookup(pairs.drop_last(), k)
    }
}

/// The view of a list of string/integer pairs.
pub open spec fn num_pairs(v: Seq<(String, u64)>) -> Seq<(Seq<char>, u64)> {
    v.map_values(|p: (String, u64)| (p.0@, p.1))
}

/// The view of a list of string/string pairs.
pub open spec fn str_pairs(v: Seq<(String, String)>) -> Seq<(Seq<char>, Seq<char>)> {
    v.map_values(|p: (String, String)| (p.0@, p.1@))
}

/// The view of an optional string.
pub open spec fn opt_view(o: Option<String>) -> Option<Seq<char>> {
    match o {
        Some(s) => Some(s@),
        None => None,
    }
}

/// Connection settings used when none are given: three retries, a connect
/// timeout of three seconds and a read timeout of five.
pub fn default_conn_config() -> (r: Vec<(String, u64)>)
    ensures
        num_pairs(r@) == seq![
            ("retry_times"@, 3u64),
            ("conn_timeout"@, 3u64),
            ("read_timeout"@, 5u64),
        ],
{
    let mut r: Vec<(String, u64)> = Vec::new();
    r.push(("retry_times".to_owned(), 3u64));
    r.push(("conn_timeout".to_owned(), 3u64));
    r.push(("read_timeout".to_owned(), 5u64));
    assert(num_pairs(r@) =~= seq![
        ("retry_times"@, 3u64),
        ("conn_timeout"@, 3u64),
        ("read_timeout"@, 5u64),
    ]);
    r
}

fn find_num(pairs: &Vec<(String, u64)>, key: &str) -> (r: Option<u64>)
    ensures
        r == lookup(num_pairs(pairs@), key@),
{
    let k = key.to_owned();
    let mut found: Option<u64> = None;
    let mut i: usize = 0;
    while i < pairs.len()
        invariant
            i <= pairs.len(),
            k@ == key@,
            found == lookup(num_pairs(pairs@).subrange(0, i as int), key@),
        decreases pairs.len() - i,
    {
        let ghost pre = num_pairs(pairs@).subrange(0, i as int);
        assert(num_pairs(pairs@).subrange(0, i + 1).drop_last() =~= pre);
        assert(num_pairs(pairs@).subrange(0, i + 1).last() == (pairs@[i as int].0@, pairs@[i as int].1));
        if pairs[i].0 == k {
            found = Some(pairs[i].1);
        }
        i += 1;
    }
    assert(num_pairs(pairs@).subrange(0, pairs.len() as int) =~= num_pairs(pairs@));
    found
}

fn find_str(pairs: &Vec<(String, String)>, key: &str) -> (r: Option<String>)
    ensures
        opt_view(r) == lookup(str_pairs(pairs@), key@),
{
    let k = key.to_owned();
    let mut found: Option<String> = None;
    let mut i: usize = 0;
    while i < pairs.len()
        invariant
            i <= pairs.len(),
            k@ == key@,
            opt_view(found) == lookup(str_pairs(pairs@).subrange(0, i as int), key@),
        decreases pairs.len() - i,
    {
        let ghost pre = str_pairs(pairs@).subrange(0, i as int);
        assert(str_pairs(pairs@).subrange(0, i + 1).drop_last() =~= pre);
        assert(str_pairs(pairs@).subrange(0, i + 1).last() == (pairs@[i as int].0@, pairs@[i as int].1@));
        if pairs[i].0 == k {
            found = Some(pairs[i].1.clone());
        }
        i += 1;
    }
    assert(str_pairs(pairs@).subrange(0, pairs.len() as int) =~= str_pairs(pairs@));
    found
}

/// Retry and timeout settings of an S3 client; timeouts are in seconds.
#[derive(Clone, Debug, PartialEq, Eq)]
pub struct AwsCustomConfig {
    pub read_timeout: u64,
    pub conn_timeout: u64,
    pub retry_times: u32,
}

impl AwsCustomConfig {
    /// Settings from key/value pairs: `retry_times` (kept modulo 2^32),
    /// `conn_timeout` and `read_timeout` override 0 retries and 3-second
    /// timeouts; other keys are ignored.
    pub fn from_conn_config(input_config: &Vec<(String, u64)>) -> (r: AwsCustomConfig)
        ensures
            r.retry_times == match lookup(num_pairs(input_config@), "retry_times"@) {
                Some(v) => (v % 0x1_0000_0000) as u32,
                None => 0u32,
            },
            r.conn_timeout == match lookup(num_pairs(input_config@), "conn_timeout"@) {
                Some(v) => v,
                None => 3u64,
            },
            r.read_timeout == match lookup(num_pairs(input_config@), "read_timeout"@) {
                Some(v) => v,
                None => 3u64,
            },
    {
        let mut config = AwsCustomConfig { read_timeout: 3, conn_timeout: 3, retry_times: 0 };
        if let Some(v) = find_num(input_config, "retry_times") {
            config.retry_times = (v % 0x1_0000_0000) as u32;
        }
        if let Some(v) = find_num(input_config, "conn_timeout") {
            config.conn_timeout = v;
        }
        if let Some(v) = find_num(input_config, "read_timeout") {
            config.read_timeout = v;
        }
        config
    }

    /// The settings of `default_conn_config`.
    pub fn default_config() -> (r: AwsCustomConfig)
        ensures
            r.retry_times == 3 && r.conn_timeout == 3 && r.read_timeout == 5,
    {
        let pairs = default_conn_config();
        proof {
            let p = num_pairs(pairs@);
            assert(p.drop_last() =~= seq![("retry_times"@, 3u64), ("conn_timeout"@, 3u64)]);
            assert(p.drop_last().drop_last() =~= seq![("retry_times"@, 3u64)]);
            assert(p.drop_last().drop_last().drop_last() =~= Seq::<(Seq<char>, u64)>::empty());
            reveal_strlit("retry_times");
            reveal_strlit("conn_timeout");
            reveal_strlit("read_timeout");
            assert("retry_times"@.len() != "conn_timeout"@.len());
            assert("retry_times"@[2] != "read_timeout"@[2]);
            assert("conn_timeout"@[0] != "read_timeout"@[0]);
            assert(lookup(p, "read_timeout"@) == Some(5u64));
            assert(lookup(p.drop_last(), "conn_timeout"@) == Some(3u64));
            assert(lookup(p, "conn_timeout"@) == Some(3u64));
            assert(lookup(p.drop_last().drop_last(), "retry_times"@) == Some(3u64));
            assert(lookup(p.drop_last(), "retry_times"@) == Some(3u64));
            assert(lookup(p, "retry_times"@) == Some(3u64));
        }
        Self::from_conn_config(&pairs)
    }
}

/// How to obtain AWS credentials.
#[derive(Clone, Debug, PartialEq, Eq)]
pub enum AwsCredentialV2 {
    /// Fixed keys.
    Static { access_key: String, secret_access: String, session_token: Option<String> },
    /// A named profile of the shared configuration.
    ProfileName(String),
    /// The default provider chain, with no profile.
    DefaultChain,
}

impl AwsCredentialV2 {
    /// The profile named `default`.
    pub fn default_credential() -> (r: AwsCredentialV2)
        ensures
            r matches AwsCredentialV2::ProfileName(p) && p@ == "default"@,
    {
        AwsCredentialV2::ProfileName("default".to_owned())
    }
}

/// Region, role, credentials and endpoint of an AWS connection.
#[derive(Clone, Debug, PartialEq, Eq)]
pub struct AwsConfigV2 {
    pub region: Option<String>,
    pub arn: Option<String>,
    pub credential: AwsCredentialV2,
    pub endpoint: Option<String>,
}

/// What `str::trim` leaves of a string.
pub uninterp spec fn trim_of(s: Seq<char>) -> Seq<char>;

/// Relies on `str::trim`: the string without leading and trailing white
/// space, a function of the characters alone; a part of the string, so no
/// longer than it, and empty when it is empty.
#[verifier::external_body]
fn trimmed(s: &str) -> (r: String)
    ensures
        r@ == trim_of(s@),
        r@.len() <= s@.len(),
        s@.len() == 0 ==> r@.len() == 0,
{
    s.trim().to_owned()
}

/// Whether a string holds something besides white space.
pub open spec fn not_blank(s: Seq<char>) -> bool {
    trim_of(s).len() > 0
}

impl AwsConfigV2 {
    /// Settings from connector properties: `region`, `arn` and
    /// `endpoint_url` are taken as they are; `profile` names a profile;
    /// `access_key` and `secret_access`, when both hold something besides
    /// white space, give static credentials (with `session_token`, if any),
    /// which win over a profile. Without either, the `default` profile.
    pub fn from_props(props: &Vec<(String, String)>) -> (r: AwsConfigV2)
        ensures
            ({
                let p = str_pairs(props@);
                let no_access = match lookup(p, "access_key"@) {
                    Some(a) => a.len() == 0,
                    None => true,
                };
                let no_secret = match lookup(p, "secret_access"@) {
                    Some(a) => a.len() == 0,
                    None => true,
                };
                no_access || no_secret ==> r.credential is ProfileName
            }),
            opt_view(r.region) == lookup(str_pairs(props@), "region"@),
            opt_view(r.arn) == lookup(str_pairs(props@), "arn"@),
            opt_view(r.endpoint) == lookup(str_pairs(props@), "endpoint_url"@),
            ({
                let p = str_pairs(props@);
                let access = match lookup(p, "access_key"@) { Some(a) => a, None => Seq::<char>::empty() };
                let secret = match lookup(p, "secret_access"@) { Some(a) => a, None => Seq::<char>::empty() };
                if not_blank(access) && not_blank(secret) {
                    r.credential matches AwsCredentialV2::Static { access_key, secret_access, session_token }
                        && access_key@ == access && secret_access@ == secret
                        && opt_view(session_token) == lookup(p, "session_token"@)
                } else {
                    match lookup(p, "profile"@) {
                        Some(name) => r.credential matches AwsCredentialV2::ProfileName(n) && n@ == name,
                        None => r.credential matches AwsCredentialV2::ProfileName(n) && n@ == "default"@,
                    }
                }
            }),
    {
        let region = find_str(props, "region");
        let arn = find_str(props, "arn");
        let endpoint = find_str(props, "endpoint_url");
        let mut credential = match find_str(props, "profile") {
            Some(name) => AwsCredentialV2::ProfileName(name),
            None => AwsCredentialV2::default_credential(),
        };
        let access_key = match find_str(props, "access_key") {
            Some(a) => a,
            None => String::new(),
        };
        let secret_access = match find_str(props, "secret_access") {
            Some(a) => a,
            None => String::new(),
        };
        let session_token = find_str(props, "session_token");
        let access_trimmed = trimmed(access_key.as_str());
        let secret_trimmed = trimmed(secret_access.as_str());
        if access_trimmed.as_str().unicode_len() > 0 && secret_trimmed.as_str().unicode_len() > 0 {
            credential = AwsCredentialV2::Static { access_key, secret_access, session_token };
        }
        AwsConfigV2 { region, arn, credential, endpoint }
    }
}

/// Where an object lives in S3.
#[derive(Clone, Debug, PartialEq, Eq)]
pub struct S3ObjectLocation {
    pub bucket: String,
    pub key: String,
}

/// Why a location names no S3 object.
#[derive(Clone, Debug, PartialEq, Eq)]
pub enum S3LocationError {
    /// The location has no domain to serve as bucket.
    MissingBucket,
}

/// `s` without its `/` characters.
pub open spec fn strip_slashes(s: Seq<char>) -> Seq<char>
    decreases s.len(),
{
    if s.len() == 0 {
        Seq::empty()
    } else if s.last() == '/' {
        strip_slashes(s.drop_last())
    } else {
        strip_slashes(s.drop_last()).push(s.last())
    }
}

/// The bucket and object key of a location with domain `domain` and path
/// `path`: the domain is the bucket, the path without its slashes the key.
pub fn object_location(domain: Option<String>, path: &str) -> (r: Result<S3ObjectLocation, S3LocationError>)
    ensures
        match domain {
            Some(d) => r matches Ok(loc) && loc.bucket@ == d@ && loc.key@ == strip_slashes(path@),
            None => r == Err::<S3ObjectLocation, S3LocationError>(S3LocationError::MissingBucket),
        },
{
    let bucket = match domain {
        Some(d) => d,
        None => return Err(S3LocationError::MissingBucket),
    };
    let n = path.unicode_len();
    let mut key = String::new();
    let mut i: usize = 0;
    while i < n
        invariant
            i <= n,
            n == path@.len(),
            key@ == strip_slashes(path@.subrange(0, i as int)),
        decreases n - i,
    {
        assert(path@.subrange(0, i + 1).drop_last() =~= path@.subrange(0, i as int));
        if path.get_char(i) != '/' {
            key.append(path.substring_char(i, i + 1));
            assert(path@.subrange(i as int, i + 1) =~= seq![path@[i as int]]);
            assert(key@ =~= strip_slashes(path@.subrange(0, i + 1)));
        }
        i += 1;
    }
    assert(path@.subrange(0, n as int) =~= path@);
    Ok(S3ObjectLocation { bucket, key })
}

} // verus!

//! The server's command line: flags with a value each.

use vstd::prelude::*;
use vstd::string::StringExecFns;
use crate::text::{parse_unsigned, same_text, texts, unsigned_value};

verus! {

/// Where the tables live.
#[derive(Debug)]
pub enum CatalogConfig {
    /// In process, for development and tests.
    Memory { warehouse_uri: String },
    /// On AWS S3 Tables.
    S3Tables { table_bucket_arn: String, endpoint_url: Option<String> },
}

/// What the server is started with.
#[derive(Debug)]
pub struct Args {
    pub wal_dir: String,
    pub bind: String,
    pub flush_interval_secs: u64,
    /// How long requests in flight are waited for after a shutdown signal.
    pub shutdown_timeout_secs: u64,
    pub catalog: CatalogConfig,
    pub aws_region: Option<String>,
    pub api_token: Option<String>,
}

/// Why the command line is refused.
#[derive(Debug)]
pub enum ArgsError {
    BadBind,
    BadFlushInterval,
    BadShutdownTimeout,
    MissingArn,
    BadCatalog(String),
}

/// The view of a `CatalogConfig`.
#[verifier::ext_equal]
pub enum CatalogView {
    Memory { warehouse_uri: Seq<char> },
    S3Tables { table_bucket_arn: Seq<char>, endpoint_url: Option<Seq<char>> },
}

/// The view of an `Args`.
#[verifier::ext_equal]
pub struct ArgsView {
    pub wal_dir: Seq<char>,
    pub bind: Seq<char>,
    pub flush_interval_secs: u64,
    pub shutdown_timeout_secs: u64,
    pub catalog: CatalogView,
    pub aws_region: Option<Seq<char>>,
    pub api_token: Option<Seq<char>>,
}

/// The view of an `ArgsError`.
#[verifier::ext_equal]
pub enum ArgsFault {
    BadBind,
    BadFlushInterval,
    BadShutdownTimeout,
    MissingArn,
    BadCatalog(Seq<char>),
}

/// The text of an optional string.
pub open spec fn opt(s: Option<String>) -> Option<Seq<char>> {
    match s {
        Some(t) => Some(t@),
        None => None,
    }
}

impl View for CatalogConfig {
    type V = CatalogView;

    open spec fn view(&self) -> CatalogView {
        match *self {
            CatalogConfig::Memory { warehouse_uri } => CatalogView::Memory {
                warehouse_uri: warehouse_uri@,
            },
            CatalogConfig::S3Tables { table_bucket_arn, endpoint_url } => CatalogView::S3Tables {
                table_bucket_arn: table_bucket_arn@,
                endpoint_url: opt(endpoint_url),
            },
        }
    }
}

impl View for Args {
    type V = ArgsView;

    open spec fn view(&self) -> ArgsView {
        ArgsView {
            wal_dir: self.wal_dir@,
            bind: self.bind@,
            flush_interval_secs: self.flush_interval_secs,
            shutdown_timeout_secs: self.shutdown_timeout_secs,
            catalog: self.catalog@,
            aws_region: opt(self.aws_region),
            api_token: opt(self.api_token),
        }
    }
}

impl View for ArgsError {
    type V = ArgsFault;

    open spec fn view(&self) -> ArgsFault {
        match *self {
            ArgsError::BadBind => ArgsFault::BadBind,
            ArgsError::BadFlushInterval => ArgsFault::BadFlushInterval,
            ArgsError::BadShutdownTimeout => ArgsFault::BadShutdownTimeout,
            ArgsError::MissingArn => ArgsFault::MissingArn,
            ArgsError::BadCatalog(s) => ArgsFault::BadCatalog(s@),
        }
    }
}

/// What a refusal is told as.
pub open spec fn fault_text(e: ArgsFault) -> Seq<char> {
    match e {
        ArgsFault::BadBind => "--bind addr:port"@,
        ArgsFault::BadFlushInterval => "--flush-interval-secs <seconds>"@,
        ArgsFault::BadShutdownTimeout => "--shutdown-timeout-secs <seconds>"@,
        ArgsFault::MissingArn => "--catalog s3tables requires --table-bucket-arn"@,
        ArgsFault::BadCatalog(s) => "--catalog must be 'memory' or 's3tables' (got "@ + s + ")"@,
    }
}

impl ArgsError {
    /// What the refusal is told as.
    pub fn message(&self) -> (r: String)
        ensures
            r@ == fault_text(self@),
    {
        match self {
            ArgsError::BadBind => "--bind addr:port".to_string(),
            ArgsError::BadFlushInterval => "--flush-interval-secs <seconds>".to_string(),
            ArgsError::BadShutdownTimeout => "--shutdown-timeout-secs <seconds>".to_string(),
            ArgsError::MissingArn => "--catalog s3tables requires --table-bucket-arn".to_string(),
            ArgsError::BadCatalog(s) => {
                let mut m = "--catalog must be 'memory' or 's3tables' (got ".to_string();
                m.append(s.as_str());
                m.append(")");
                m
            },
        }
    }
}

// ---------- reading ----------

/// Tells whether a text is a socket address, supplied by the caller.
pub struct AddressCheck<A> {
    pub is_address: A,
}

impl<A: Fn(&str) -> bool> AddressCheck<A> {
    /// The function takes every text, and gives one result for each.
    pub open spec fn wf(self) -> bool {
        &&& forall|s: &str| #[trigger] call_requires(self.is_address, (s,))
        &&& forall|s: &str, t: &str, a: bool, b: bool| #[trigger]
            call_ensures(self.is_address, (s,), a) && #[trigger] call_ensures(
                self.is_address,
                (t,),
                b,
            ) && s@ == t@ ==> a == b
    }

    /// Whether a text is taken as an address.
    pub open spec fn accepts(self, text: Seq<char>) -> bool {
        exists|s: &str| s@ == text && #[trigger] call_ensures(self.is_address, (s,), true)
    }

    /// Whether a text is taken as an address, as the function tells.
    pub fn check(&self, s: &str) -> (r: bool)
        requires
            self.wf(),
        ensures
            r == self.accepts(s@),
            call_ensures(self.is_address, (s,), r),
    {
        (self.is_address)(s)
    }
}

/// The flags as far as they are read.
struct Options {
    wal_dir: String,
    bind: String,
    flush_interval_secs: u64,
    shutdown_timeout_secs: u64,
    catalog_kind: String,
    warehouse_uri: String,
    table_bucket_arn: Option<String>,
    s3tables_endpoint: Option<String>,
    aws_region: Option<String>,
    api_token: Option<String>,
    unknown: Vec<String>,
}

/// What the flags read so far say.
#[verifier::ext_equal]
pub struct OptionsView {
    pub wal_dir: Seq<char>,
    pub bind: Seq<char>,
    pub flush_interval_secs: u64,
    pub shutdown_timeout_secs: u64,
    pub catalog_kind: Seq<char>,
    pub warehouse_uri: Seq<char>,
    pub table_bucket_arn: Option<Seq<char>>,
    pub s3tables_endpoint: Option<Seq<char>>,
    pub aws_region: Option<Seq<char>>,
    pub api_token: Option<Seq<char>>,
    pub unknown: Seq<Seq<char>>,
}

impl Options {
    spec fn view(self) -> OptionsView {
        OptionsView {
            wal_dir: self.wal_dir@,
            bind: self.bind@,
            flush_interval_secs: self.flush_interval_secs,
            shutdown_timeout_secs: self.shutdown_timeout_secs,
            catalog_kind: self.catalog_kind@,
            warehouse_uri: self.warehouse_uri@,
            table_bucket_arn: opt(self.table_bucket_arn),
            s3tables_endpoint: opt(self.s3tables_endpoint),
            aws_region: opt(self.aws_region),
            api_token: opt(self.api_token),
            unknown: texts(self.unknown@),
        }
    }
}

/// What no flags say.
pub open spec fn defaults() -> OptionsView {
    OptionsView {
        wal_dir: "data/wal"@,
        bind: "127.0.0.1:8080"@,
        flush_interval_secs: 300,
        shutdown_timeout_secs: 30,
        catalog_kind: "memory"@,
        warehouse_uri: "memory:///warehouse"@,
        table_bucket_arn: None,
        s3tables_endpoint: None,
        aws_region: None,
        api_token: None,
        unknown: Seq::empty(),
    }
}

/// What the flags say after one more. A flag that is not known is noted, its
/// value passed over.
pub open spec fn with_flag<A: Fn(&str) -> bool>(
    check: AddressCheck<A>,
    o: OptionsView,
    flag: Seq<char>,
    value: Seq<char>,
) -> Result<OptionsView, ArgsFault> {
    if flag == "--wal-dir"@ {
        Ok(OptionsView { wal_dir: value, ..o })
    } else if flag == "--bind"@ {
        if check.accepts(value) {
            Ok(OptionsView { bind: value, ..o })
        } else {
            Err(ArgsFault::BadBind)
        }
    } else if flag == "--flush-interval-secs"@ {
        match unsigned_value(value) {
            Some(n) => Ok(OptionsView { flush_interval_secs: n, ..o }),
            None => Err(ArgsFault::BadFlushInterval),
        }
    } else if flag == "--shutdown-timeout-secs"@ {
        match unsigned_value(value) {
            Some(n) => Ok(OptionsView { shutdown_timeout_secs: n, ..o }),
            None => Err(ArgsFault::BadShutdownTimeout),
        }
    } else if flag == "--catalog"@ {
        Ok(OptionsView { catalog_kind: value, ..o })
    } else if flag == "--warehouse-uri"@ {
        Ok(OptionsView { warehouse_uri: value, ..o })
    } else if flag == "--table-bucket-arn"@ {
        Ok(OptionsView { table_bucket_arn: Some(value), ..o })
    } else if flag == "--s3tables-endpoint"@ {
        Ok(OptionsView { s3tables_endpoint: Some(value), ..o })
    } else if flag == "--aws-region"@ {
        Ok(OptionsView { aws_region: Some(value), ..o })
    } else if flag == "--api-token"@ {
        Ok(OptionsView { api_token: Some(value), ..o })
    } else {
        Ok(OptionsView { unknown: o.unknown.push(flag), ..o })
    }
}

/// What the flags say, a flag and its value at a time. The value of a flag that
/// comes last without one is empty. With a refusal come the unknown flags seen
/// before it.
pub open spec fn with_flags<A: Fn(&str) -> bool>(
    check: AddressCheck<A>,
    o: OptionsView,
    args: Seq<Seq<char>>,
) -> Result<OptionsView, (ArgsFault, Seq<Seq<char>>)>
    decreases args.len(),
{
    if args.len() == 0 {
        Ok(o)
    } else {
        let value = if args.len() > 1 {
            args[1]
        } else {
            Seq::empty()
        };
        match with_flag(check, o, args[0], value) {
            Err(e) => Err((e, o.unknown)),
            Ok(next) => if args.len() <= 2 {
                Ok(next)
            } else {
                with_flags(check, next, args.skip(2))
            },
        }
    }
}

/// The catalog that the flags ask for.
pub open spec fn catalog_of(o: OptionsView) -> Result<CatalogView, ArgsFault> {
    if o.catalog_kind == "memory"@ {
        Ok(CatalogView::Memory { warehouse_uri: o.warehouse_uri })
    } else if o.catalog_kind == "s3tables"@ {
        match o.table_bucket_arn {
            Some(arn) => Ok(
                CatalogView::S3Tables {
                    table_bucket_arn: arn,
                    endpoint_url: o.s3tables_endpoint,
                },
            ),
            None => Err(ArgsFault::MissingArn),
        }
    } else {
        Err(ArgsFault::BadCatalog(o.catalog_kind))
    }
}

/// What a command line says, and the unknown flags in it.
pub open spec fn parsed<A: Fn(&str) -> bool>(check: AddressCheck<A>, args: Seq<Seq<char>>) -> (
    Result<ArgsView, ArgsFault>,
    Seq<Seq<char>>,
) {
    match with_flags(check, defaults(), args) {
        Err((e, unknown)) => (Err(e), unknown),
        Ok(o) => match catalog_of(o) {
            Err(e) => (Err(e), o.unknown),
            Ok(catalog) => (
                Ok(
                    ArgsView {
                        wal_dir: o.wal_dir,
                        bind: o.bind,
                        flush_interval_secs: o.flush_interval_secs,
                        shutdown_timeout_secs: o.shutdown_timeout_secs,
                        catalog,
                        aws_region: o.aws_region,
                        api_token: o.api_token,
                    },
                ),
                o.unknown,
            ),
        },
    }
}

fn set_flag<A: Fn(&str) -> bool>(
    check: &AddressCheck<A>,
    o: &mut Options,
    flag: &String,
    value: String,
) -> (r: Result<(), ArgsError>)
    requires
        check.wf(),
    ensures
        match with_flag(*check, old(o).view(), flag@, value@) {
            Ok(next) => r is Ok && final(o).view() == next,
            Err(e) => r is Err && r->Err_0@ == e && *final(o) == *old(o),
        },
{
    let ghost before = o.view();
    let f = flag.as_str();
    if same_text(f, "--wal-dir") {
        o.wal_dir = value;
    } else if same_text(f, "--bind") {
        if !check.check(value.as_str()) {
            return Err(ArgsError::BadBind);
        }
        o.bind = value;
    } else if same_text(f, "--flush-interval-secs") {
        match parse_unsigned(value.as_str()) {
            Some(n) => {
                o.flush_interval_secs = n;
            },
            None => {
                return Err(ArgsError::BadFlushInterval);
            },
        }
    } else if same_text(f, "--shutdown-timeout-secs") {
        match parse_unsigned(value.as_str()) {
            Some(n) => {
                o.shutdown_timeout_secs = n;
            },
            None => {
                return Err(ArgsError::BadShutdownTimeout);
            },
        }
    } else if same_text(f, "--catalog") {
        o.catalog_kind = value;
    } else if same_text(f, "--warehouse-uri") {
        o.warehouse_uri = value;
    } else if same_text(f, "--table-bucket-arn") {
        o.table_bucket_arn = Some(value);
    } else if same_text(f, "--s3tables-endpoint") {
        o.s3tables_endpoint = Some(value);
    } else if same_text(f, "--aws-region") {
        o.aws_region = Some(value);
    } else if same_text(f, "--api-token") {
        o.api_token = Some(value);
    } else {
        o.unknown.push(flag.clone());
        assert(o.view().unknown =~= before.unknown.push(flag@));
    }
    Ok(())
}

fn default_options() -> (r: Options)
    ensures
        r.view() == defaults(),
{
    let unknown: Vec<String> = Vec::new();
    assert(texts(unknown@) =~= Seq::empty());
    Options {
        wal_dir: "data/wal".to_string(),
        bind: "127.0.0.1:8080".to_string(),
        flush_interval_secs: 300,
        shutdown_timeout_secs: 30,
        catalog_kind: "memory".to_string(),
        warehouse_uri: "memory:///warehouse".to_string(),
        table_bucket_arn: None,
        s3tables_endpoint: None,
        aws_region: None,
        api_token: None,
        unknown,
    }
}

fn finish(o: Options) -> (r: (Result<Args, ArgsError>, Vec<String>))
    ensures
        texts(r.1@) == o.view().unknown,
        match catalog_of(o.view()) {
            Err(e) => r.0 is Err && r.0->Err_0@ == e,
            Ok(catalog) => r.0 is Ok && r.0->Ok_0@ == (ArgsView {
                wal_dir: o.view().wal_dir,
                bind: o.view().bind,
                flush_interval_secs: o.flush_interval_secs,
                shutdown_timeout_secs: o.shutdown_timeout_secs,
                catalog,
                aws_region: o.view().aws_region,
                api_token: o.view().api_token,
            }),
        },
{
    let catalog = if same_text(o.catalog_kind.as_str(), "memory") {
        CatalogConfig::Memory { warehouse_uri: o.warehouse_uri }
    } else if same_text(o.catalog_kind.as_str(), "s3tables") {
        match o.table_bucket_arn {
            Some(table_bucket_arn) => CatalogConfig::S3Tables {
                table_bucket_arn,
                endpoint_url: o.s3tables_endpoint,
            },
            None => {
                return (Err(ArgsError::MissingArn), o.unknown);
            },
        }
    } else {
        return (Err(ArgsError::BadCatalog(o.catalog_kind)), o.unknown);
    };
    let args = Args {
        wal_dir: o.wal_dir,
        bind: o.bind,
        flush_interval_secs: o.flush_interval_secs,
        shutdown_timeout_secs: o.shutdown_timeout_secs,
        catalog,
        aws_region: o.aws_region,
        api_token: o.api_token,
    };
    (Ok(args), o.unknown)
}

impl Args {
    /// Read a command line, the program's name left out. Unknown flags come back
    /// beside the result, for the caller to warn of.
    pub fn parse<A: Fn(&str) -> bool>(check: &AddressCheck<A>, args: &Vec<String>) -> (r: (
        Result<Args, ArgsError>,
        Vec<String>,
    ))
        requires
            check.wf(),
        ensures
            texts(r.1@) == parsed(*check, texts(args@)).1,
            match parsed(*check, texts(args@)).0 {
                Ok(a) => r.0 is Ok && r.0->Ok_0@ == a,
                Err(e) => r.0 is Err && r.0->Err_0@ == e,
            },
    {
        let ghost all = texts(args@);
        let mut o = default_options();
        let len: usize = args.len();
        let mut i: usize = 0;
        assert(all.skip(0) =~= all);
        while i < len
            invariant
                check.wf(),
                all == texts(args@),
                len == args@.len(),
                i <= len,
                with_flags(*check, defaults(), all) == with_flags(
                    *check,
                    o.view(),
                    all.skip(i as int),
                ),
            decreases len - i,
        {
            let ghost rest = all.skip(i as int);
            let ghost before = o.view();
            let value = if i + 1 < len {
                args[i + 1].clone()
            } else {
                let empty = String::new();
                assert(empty@ =~= Seq::empty());
                empty
            };
            proof {
                assert(rest[0] == args@[i as int]@);
                if i + 1 < len {
                    assert(rest[1] == args@[i as int + 1]@);
                }
            }
            match set_flag(check, &mut o, &args[i], value) {
                Ok(_) => {},
                Err(e) => {
                    return (Err(e), o.unknown);
                },
            }
            if len - i <= 2 {
                proof {
                    assert(all.skip(len as int) =~= Seq::empty());
                }
                i = len;
            } else {
                assert(rest.skip(2) =~= all.skip(i as int + 2));
                i = i + 2;
            }
        }
        assert(all.skip(i as int) =~= Seq::empty());
        finish(o)
    }
}

} // verus!

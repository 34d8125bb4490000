//! Connection settings for the task queue.
use vstd::prelude::*;
use crate::text::{decimal, push_decimal};
use redis::{Client, RedisError};

verus! {

/// The password's text, if there is one.
pub open spec fn password_view(p: Option<String>) -> Option<Seq<char>> {
    match p {
        Some(s) => Some(s@),
        None => None,
    }
}

/// The Redis URL for a host, a port and an optional password:
/// `redis://:PASSWORD@HOST:PORT/`, or `redis://HOST:PORT/` without one.
pub open spec fn connection_url(host: Seq<char>, port: u16, password: Option<Seq<char>>) -> Seq<
    char,
> {
    match password {
        Some(pwd) => "redis://:"@ + pwd + "@"@ + host + ":"@ + decimal(port as nat) + "/"@,
        None => "redis://"@ + host + ":"@ + decimal(port as nat) + "/"@,
    }
}

/// The client type of `redis`, carried through unopened.
#[verifier::external_type_specification]
#[verifier::external_body]
pub struct ExRedisClient(Client);

/// The error type of `redis`, carried through unopened.
#[verifier::external_type_specification]
#[verifier::external_body]
pub struct ExRedisError(RedisError);

/// Whether `redis` accepts `url` as connection settings.
pub uninterp spec fn redis_url_accepted(url: Seq<char>) -> bool;

/// A `redis` client together with the URL that it was opened from.
pub struct RedisConnection {
    client: Client,
    url: String,
}

impl RedisConnection {
    /// The URL that the client was opened from.
    pub closed spec fn url(self) -> Seq<char> {
        self.url@
    }

    /// The client itself.
    pub closed spec fn inner(self) -> Client {
        self.client
    }

    /// The URL that the client was opened from.
    pub fn url_text(&self) -> (r: &String)
        ensures
            r@ == self.url(),
    {
        &self.url
    }

    /// The client, for making connections.
    pub fn client(&self) -> (r: &Client)
        ensures
            *r == self.inner(),
    {
        &self.client
    }

    /// The client, giving up the URL.
    pub fn into_client(self) -> (r: Client)
        ensures
            r == self.inner(),
    {
        self.client
    }
}

/// `redis::Client::open` on a URL: parses the connection settings without
/// connecting, and keeps the URL beside the client it gave. Stated: it
/// succeeds exactly when the URL is accepted (`redis_url_accepted`), and the
/// client it returns is the one opened from `url`; which URLs are accepted is
/// not spelt out.
#[verifier::external_body]
fn open_redis_client(url: String) -> (r: Result<RedisConnection, RedisError>)
    ensures
        r is Ok <==> redis_url_accepted(url@),
        r matches Ok(c) ==> c.url() == url@,
{
    match Client::open(url.as_str()) {
        Ok(client) => Ok(RedisConnection { client, url }),
        Err(e) => Err(e),
    }
}

/// Where the Redis server is and how to log in to it.
#[derive(Debug, Clone)]
pub struct RedisConfig {
    pub host: String,
    pub port: u16,
    pub password: Option<String>,
}

impl RedisConfig {
    /// A Redis client for these settings, opened from their connection URL;
    /// no connection is made yet.
    pub fn open_client(&self) -> (r: Result<RedisConnection, RedisError>)
        ensures
            r is Ok <==> redis_url_accepted(
                connection_url(self.host@, self.port, password_view(self.password)),
            ),
            r matches Ok(c) ==> c.url() == connection_url(
                self.host@,
                self.port,
                password_view(self.password),
            ),
    {
        let url = self.connection_string();
        open_redis_client(url)
    }

    /// The connection URL for these settings.
    pub fn connection_string(&self) -> (r: String)
        ensures
            r@ == connection_url(self.host@, self.port, password_view(self.password)),
    {
        match &self.password {
            Some(pwd) => {
                let mut s = String::from_str("redis://:");
                s.append(pwd.as_str());
                s.append("@");
                s.append(self.host.as_str());
                s.append(":");
                push_decimal(&mut s, self.port as u64);
                s.append("/");
                s
            },
            None => {
                let mut s = String::from_str("redis://");
                s.append(self.host.as_str());
                s.append(":");
                push_decimal(&mut s, self.port as u64);
                s.append("/");
                s
            },
        }
    }
}

} // verus!

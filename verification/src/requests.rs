//! The requests that a WebDAV endpoint is sent, and how their failures read.

use vstd::prelude::*;

use crate::layers::pair_views;
use crate::text::{from_chars, push_str, str_owned, to_chars};
use crate::webdav::{file_address, with_slash, WebDavClient, WebDavError};

verus! {

/// What a listing asks of each entry.
pub const PROPFIND_BODY: &'static str =
    "<?xml version=\"1.0\" encoding=\"utf-8\"?>\n<d:propfind xmlns:d=\"DAV:\">\n  <d:prop>\n    <d:resourcetype/>\n    <d:getcontentlength/>\n    <d:getetag/>\n  </d:prop>\n</d:propfind>";

/// What a request carries.
#[derive(Debug, Clone, PartialEq, Eq)]
pub enum RequestBody {
    Nothing,
    /// The properties that a listing asks for.
    Properties,
    Contents(Vec<u8>),
}

/// One request. The client's credentials go with it.
#[derive(Debug, Clone, PartialEq, Eq)]
pub struct WebDavRequest {
    pub method: String,
    pub url: String,
    pub headers: Vec<(String, String)>,
    pub body: RequestBody,
    /// The path that the request is about, as the caller named it.
    pub subject: String,
}

impl WebDavRequest {
    /// The failure of a request that the endpoint refused.
    pub fn refused(&self, why: &str) -> (r: WebDavError)
        ensures
            r.0@ == "webdav "@ + self.method@ + " "@ + self.subject@ + ": "@ + why@,
    {
        let mut out = to_chars("webdav ");
        push_str(&mut out, self.method.as_str());
        push_str(&mut out, " ");
        push_str(&mut out, self.subject.as_str());
        push_str(&mut out, ": ");
        push_str(&mut out, why);
        WebDavError(from_chars(out.as_slice()))
    }
}

/// The failure of a request that got no answer.
pub fn unanswered(why: &str) -> (r: WebDavError)
    ensures
        r.0@ == "webdav http: "@ + why@,
{
    let mut out = to_chars("webdav http: ");
    push_str(&mut out, why);
    WebDavError(from_chars(out.as_slice()))
}

impl WebDavClient {
    /// The request that lists what stands directly in a collection.
    pub fn list(&self, collection_relative: &str) -> (r: WebDavRequest)
        ensures
            r.method@ == "PROPFIND"@,
            r.url@ == with_slash(file_address(self.base(), collection_relative@)),
            pair_views(r.headers@) == seq![
                ("Depth"@, "1"@),
                ("Content-Type"@, "application/xml"@),
            ],
            r.body == RequestBody::Properties,
            r.subject@ == collection_relative@,
    {
        let mut headers: Vec<(String, String)> = Vec::new();
        headers.push((str_owned("Depth"), str_owned("1")));
        headers.push((str_owned("Content-Type"), str_owned("application/xml")));
        assert(pair_views(headers@) =~= seq![
            ("Depth"@, "1"@),
            ("Content-Type"@, "application/xml"@),
        ]);
        WebDavRequest {
            method: str_owned("PROPFIND"),
            url: self.collection_url(collection_relative),
            headers,
            body: RequestBody::Properties,
            subject: str_owned(collection_relative),
        }
    }

    /// The request that fetches a file.
    pub fn get(&self, relative: &str) -> (r: WebDavRequest)
        ensures
            r.method@ == "GET"@,
            r.url@ == file_address(self.base(), relative@),
            r.headers@.len() == 0,
            r.body == RequestBody::Nothing,
            r.subject@ == relative@,
    {
        WebDavRequest {
            method: str_owned("GET"),
            url: self.file_url(relative),
            headers: Vec::new(),
            body: RequestBody::Nothing,
            subject: str_owned(relative),
        }
    }

    /// The request that writes a file. With an expected tag the endpoint
    /// refuses it if the file has another by then.
    pub fn put(&self, relative: &str, contents: Vec<u8>, expected_etag: Option<&str>) -> (r:
        WebDavRequest)
        ensures
            r.method@ == "PUT"@,
            r.url@ == file_address(self.base(), relative@),
            pair_views(r.headers@) == (match expected_etag {
                Some(etag) => seq![
                    ("Content-Type"@, "text/markdown; charset=utf-8"@),
                    ("If-Match"@, etag@),
                ],
                None => seq![("Content-Type"@, "text/markdown; charset=utf-8"@)],
            }),
            r.body == RequestBody::Contents(contents),
            r.subject@ == relative@,
    {
        let mut headers: Vec<(String, String)> = Vec::new();
        headers.push((str_owned("Content-Type"), str_owned("text/markdown; charset=utf-8")));
        match expected_etag {
            Some(etag) => {
                headers.push((str_owned("If-Match"), str_owned(etag)));
                assert(pair_views(headers@) =~= seq![
                    ("Content-Type"@, "text/markdown; charset=utf-8"@),
                    ("If-Match"@, etag@),
                ]);
            },
            None => {
                assert(pair_views(headers@) =~= seq![
                    ("Content-Type"@, "text/markdown; charset=utf-8"@),
                ]);
            },
        }
        WebDavRequest {
            method: str_owned("PUT"),
            url: self.file_url(relative),
            headers,
            body: RequestBody::Contents(contents),
            subject: str_owned(relative),
        }
    }

    /// The request that makes a collection.
    pub fn mkdir(&self, relative: &str) -> (r: WebDavRequest)
        ensures
            r.method@ == "MKCOL"@,
            r.url@ == with_slash(file_address(self.base(), relative@)),
            r.headers@.len() == 0,
            r.body == RequestBody::Nothing,
            r.subject@ == relative@,
    {
        WebDavRequest {
            method: str_owned("MKCOL"),
            url: self.collection_url(relative),
            headers: Vec::new(),
            body: RequestBody::Nothing,
            subject: str_owned(relative),
        }
    }

    /// The request that removes a file.
    pub fn delete(&self, relative: &str) -> (r: WebDavRequest)
        ensures
            r.method@ == "DELETE"@,
            r.url@ == file_address(self.base(), relative@),
            r.headers@.len() == 0,
            r.body == RequestBody::Nothing,
            r.subject@ == relative@,
    {
        WebDavRequest {
            method: str_owned("DELETE"),
            url: self.file_url(relative),
            headers: Vec::new(),
            body: RequestBody::Nothing,
            subject: str_owned(relative),
        }
    }
}

} // verus!

use vstd::prelude::*;

verus! {

/// Request classification categories recognised by the proxy.  `Mirrorlist`
/// is a declared category that no classification rule currently produces; it
/// is kept so that the gap stays visible rather than silently dropped.
#[derive(Clone, Copy, Debug, PartialEq, Eq, Structural)]
pub enum RequestType {
    Package,
    Repodata,
    Metalink,
    Mirrorlist,
    Unknown,
}

/// The per-request record built during request interception and consumed
/// during response interception: the request URI, its classification, and the
/// routing view resolved for the client.
#[derive(Clone, Debug)]
pub struct RequestMetadata {
    pub uri: String,
    pub request_type: RequestType,
    pub view_name: String,
}

/// The field a finalisation found unset, reported in declaration order.
#[derive(Clone, Copy, Debug, PartialEq, Eq, Structural)]
pub enum MissingField {
    Uri,
    RequestType,
    ViewName,
}

/// Incremental builder for `RequestMetadata`.  All three fields are
/// mandatory; finalising with one unset reports which, as a typed error
/// rather than an unrecoverable failure.
#[derive(Debug)]
pub struct RequestMetadataBuilder {
    uri: Option<String>,
    request_type: Option<RequestType>,
    view_name: Option<String>,
}

impl RequestMetadataBuilder {
    /// The uri recorded so far.
    pub closed spec fn uri_set(&self) -> Option<String> {
        self.uri
    }

    /// The classification recorded so far.
    pub closed spec fn request_type_set(&self) -> Option<RequestType> {
        self.request_type
    }

    /// The view name recorded so far.
    pub closed spec fn view_name_set(&self) -> Option<String> {
        self.view_name
    }

    pub fn new() -> (r: RequestMetadataBuilder)
        ensures
            r.uri_set() is None,
            r.request_type_set() is None,
            r.view_name_set() is None,
    {
        RequestMetadataBuilder { uri: None, request_type: None, view_name: None }
    }

    pub fn uri(&mut self, uri: String)
        ensures
            final(self).uri_set() == Some(uri),
            final(self).request_type_set() == old(self).request_type_set(),
            final(self).view_name_set() == old(self).view_name_set(),
    {
        self.uri = Some(uri);
    }

    pub fn request_type(&mut self, request_type: RequestType)
        ensures
            final(self).uri_set() == old(self).uri_set(),
            final(self).request_type_set() == Some(request_type),
            final(self).view_name_set() == old(self).view_name_set(),
    {
        self.request_type = Some(request_type);
    }

    pub fn view_name(&mut self, view_name: String)
        ensures
            final(self).uri_set() == old(self).uri_set(),
            final(self).request_type_set() == old(self).request_type_set(),
            final(self).view_name_set() == Some(view_name),
    {
        self.view_name = Some(view_name);
    }

    /// Finalise the record.  Succeeds exactly when every field was set, and
    /// then carries the recorded values; otherwise names the first unset
    /// field, in declaration order.
    pub fn build(self) -> (r: Result<RequestMetadata, MissingField>)
        ensures
            match r {
                Ok(m) => {
                    &&& self.uri_set() == Some(m.uri)
                    &&& self.request_type_set() == Some(m.request_type)
                    &&& self.view_name_set() == Some(m.view_name)
                },
                Err(e) => {
                    &&& (e == MissingField::Uri <==> self.uri_set() is None)
                    &&& (e == MissingField::RequestType <==> (self.uri_set() is Some
                        && self.request_type_set() is None))
                    &&& (e == MissingField::ViewName <==> (self.uri_set() is Some
                        && self.request_type_set() is Some && self.view_name_set() is None))
                },
            },
            r is Ok <==> (self.uri_set() is Some && self.request_type_set() is Some
                && self.view_name_set() is Some),
    {
        match (self.uri, self.request_type, self.view_name) {
            (Some(uri), Some(request_type), Some(view_name)) => Ok(RequestMetadata {
                uri,
                request_type,
                view_name,
            }),
            (None, _, _) => Err(MissingField::Uri),
            (Some(_), None, _) => Err(MissingField::RequestType),
            (Some(_), Some(_), None) => Err(MissingField::ViewName),
        }
    }
}

} // verus!

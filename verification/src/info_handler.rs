//! The introspection protocol: its requests and responses, the contract of a
//! descriptor source, and the handler that answers each request from a
//! descriptor source and a list of service names.

use vstd::prelude::*;
use vstd::string::*;
use crate::lexical::rising;
use crate::str_map::{names_of, sort_names};

verus! {

/// The status code of an operation that is not implemented.
pub const UNIMPLEMENTED: i32 = 12;

/// The byte strings of `blobs`, each as a sequence.
pub open spec fn blobs_of(blobs: Seq<Vec<u8>>) -> Seq<Seq<u8>> {
    Seq::new(blobs.len(), |i: int| blobs[i]@)
}

/// A source of encoded file descriptors, by symbol and by file name.
///
/// A source may say, by `answers_symbol` and `answers_filename`, which lists
/// of encoded files answer a query; the handler hands on what the source
/// returns. A source that says nothing promises nothing.
pub trait DescriptorMap: Send + Sync + 'static {
    /// The source is in order.
    open spec fn wf(&self) -> bool {
        true
    }

    /// `files` answers a query for the file that holds `symbol`.
    open spec fn answers_symbol(&self, symbol: Seq<char>, files: Seq<Seq<u8>>) -> bool {
        true
    }

    /// `files` answers a query for the file named `filename`.
    open spec fn answers_filename(&self, filename: Seq<char>, files: Seq<Seq<u8>>) -> bool {
        true
    }

    /// The encoded descriptors of the file that holds `symbol` and of what
    /// it depends on.
    fn by_symbol(&self, symbol: &str) -> (files: Vec<Vec<u8>>)
        requires
            self.wf(),
        ensures
            self.answers_symbol(symbol@, blobs_of(files@)),
    ;

    /// The encoded descriptors of the file named `filename` and of what it
    /// depends on.
    fn by_filename(&self, filename: &str) -> (files: Vec<Vec<u8>>)
        requires
            self.wf(),
        ensures
            self.answers_filename(filename@, blobs_of(files@)),
    ;
}

/// A query for the extension of a type with a given field number.
#[derive(Clone, Debug, Default)]
pub struct ExtensionRequest {
    pub containing_type: String,
    pub extension_number: i32,
}

/// What a client asks: one of five things.
#[derive(Clone, Debug)]
pub enum MessageRequest {
    /// The file of this name.
    FileByFilename(String),
    /// The file that defines this symbol.
    FileContainingSymbol(String),
    /// The file that defines this extension.
    FileContainingExtension(ExtensionRequest),
    /// The extension numbers of this type.
    AllExtensionNumbersOfType(String),
    /// The services of the server.
    ListServices(String),
}

/// The name of one service.
#[derive(Clone, Debug, Default)]
pub struct ServiceResponse {
    pub name: String,
}

/// The names of the services.
#[derive(Clone, Debug, Default)]
pub struct ListServiceResponse {
    pub service: Vec<ServiceResponse>,
}

/// Encoded file descriptors, what is depended on first.
#[derive(Clone, Debug, Default)]
pub struct FileDescriptorResponse {
    pub file_descriptor_proto: Vec<Vec<u8>>,
}

/// The extension numbers of a type.
#[derive(Clone, Debug, Default)]
pub struct ExtensionNumberResponse {
    pub base_type: String,
    pub extension_number: Vec<i32>,
}

/// An error, with its status code.
#[derive(Clone, Debug, Default)]
pub struct ErrorResponse {
    pub error_code: i32,
    pub error_message: String,
}

/// What the server answers: one of four things.
#[derive(Clone, Debug)]
pub enum MessageResponse {
    FileDescriptorResponse(FileDescriptorResponse),
    AllExtensionNumbersResponse(ExtensionNumberResponse),
    ListServicesResponse(ListServiceResponse),
    ErrorResponse(ErrorResponse),
}

/// The names of `services`.
pub open spec fn service_names_of(services: Seq<ServiceResponse>) -> Seq<Seq<char>> {
    Seq::new(services.len(), |i: int| services[i].name@)
}

/// `r` lists the services `names`, in their order.
pub open spec fn lists_services(r: MessageResponse, names: Seq<Seq<char>>) -> bool {
    r matches MessageResponse::ListServicesResponse(list) && service_names_of(list.service@)
        == names
}

/// `r` is the fixed answer to a query about extensions: an error of code 12
/// that says that extensions are not supported.
pub open spec fn is_unsupported(r: MessageResponse) -> bool {
    r matches MessageResponse::ErrorResponse(e) && e.error_code == 12 && e.error_message@
        == "extensions not supported"@
}

/// `r` carries the encoded descriptors `files`.
pub open spec fn carries(r: MessageResponse, files: Seq<Seq<u8>>) -> bool {
    r matches MessageResponse::FileDescriptorResponse(f) && blobs_of(f.file_descriptor_proto@)
        == files
}

/// The response that carries `files`, as they are.
pub fn file_descriptor_response(files: Vec<Vec<u8>>) -> (r: MessageResponse)
    ensures
        carries(r, blobs_of(files@)),
        r matches MessageResponse::FileDescriptorResponse(f) && f.file_descriptor_proto == files,
{
    MessageResponse::FileDescriptorResponse(FileDescriptorResponse { file_descriptor_proto: files })
}

/// The fixed answer to a query about extensions.
pub fn unsupported_response() -> (r: MessageResponse)
    ensures
        is_unsupported(r),
{
    MessageResponse::ErrorResponse(
        ErrorResponse {
            error_code: UNIMPLEMENTED,
            error_message: String::from_str("extensions not supported"),
        },
    )
}

/// Answers the requests of the introspection protocol.
pub struct InfoHandler<T: DescriptorMap> {
    service_names: Vec<ServiceResponse>,
    descriptor_map: T,
}

impl<T: DescriptorMap> InfoHandler<T> {
    /// The names of the services, in the order in which they are listed.
    pub closed spec fn names(&self) -> Seq<Seq<char>> {
        service_names_of(self.service_names@)
    }

    /// The descriptor source.
    pub closed spec fn source(&self) -> T {
        self.descriptor_map
    }

    /// The descriptor source is in order.
    pub open spec fn wf(&self) -> bool {
        self.source().wf()
    }

    /// `r` hands on an answer of the source to a query for `symbol`.
    pub open spec fn answers_symbol(&self, symbol: Seq<char>, r: MessageResponse) -> bool {
        r matches MessageResponse::FileDescriptorResponse(f) && self.source().answers_symbol(
            symbol,
            blobs_of(f.file_descriptor_proto@),
        )
    }

    /// `r` hands on an answer of the source to a query for `filename`.
    pub open spec fn answers_filename(&self, filename: Seq<char>, r: MessageResponse) -> bool {
        r matches MessageResponse::FileDescriptorResponse(f) && self.source().answers_filename(
            filename,
            blobs_of(f.file_descriptor_proto@),
        )
    }

    /// `r` answers `request`.
    pub open spec fn answers(&self, request: MessageRequest, r: MessageResponse) -> bool {
        match request {
            MessageRequest::FileByFilename(filename) => self.answers_filename(filename@, r),
            MessageRequest::FileContainingSymbol(symbol) => self.answers_symbol(symbol@, r),
            MessageRequest::FileContainingExtension(_) => is_unsupported(r),
            MessageRequest::AllExtensionNumbersOfType(_) => is_unsupported(r),
            MessageRequest::ListServices(_) => lists_services(r, self.names()),
        }
    }

    /// A handler that lists `service_names`, put in rising order, and looks
    /// descriptors up in `descriptor_map`.
    pub fn new(service_names: Vec<String>, descriptor_map: T) -> (handler: Self)
        requires
            descriptor_map.wf(),
        ensures
            handler.wf(),
            rising(handler.names()),
            handler.names().to_multiset() == names_of(service_names@).to_multiset(),
            handler.source() == descriptor_map,
    {
        let sorted = sort_names(&service_names);
        let mut services: Vec<ServiceResponse> = Vec::new();
        let mut i: usize = 0;
        while i < sorted.len()
            invariant
                i <= sorted@.len(),
                services@.len() == i,
                forall|j: int| 0 <= j < i ==> (#[trigger] services@[j]).name@ == sorted@[j]@,
            decreases sorted@.len() - i,
        {
            services.push(ServiceResponse { name: sorted[i].clone() });
            i = i + 1;
        }
        let handler = InfoHandler { service_names: services, descriptor_map };
        assert(handler.names() =~= names_of(sorted@));
        handler
    }

    /// The names of the services, in rising order; what the client sends
    /// with the request is not read.
    pub fn list_services(&self, _content: &str) -> (r: MessageResponse)
        ensures
            lists_services(r, self.names()),
    {
        let mut service: Vec<ServiceResponse> = Vec::new();
        let mut i: usize = 0;
        while i < self.service_names.len()
            invariant
                i <= self.service_names@.len(),
                service@.len() == i,
                forall|j: int|
                    0 <= j < i ==> (#[trigger] service@[j]).name@ == self.service_names@[j].name@,
            decreases self.service_names@.len() - i,
        {
            service.push(ServiceResponse { name: self.service_names[i].name.clone() });
            i = i + 1;
        }
        assert(service_names_of(service@) =~= self.names());
        MessageResponse::ListServicesResponse(ListServiceResponse { service })
    }

    /// The descriptors that the source returns for `symbol`.
    pub fn file_containing_symbol(&self, symbol: &str) -> (r: MessageResponse)
        requires
            self.wf(),
        ensures
            self.answers_symbol(symbol@, r),
    {
        file_descriptor_response(self.descriptor_map.by_symbol(symbol))
    }

    /// The descriptors that the source returns for `filename`.
    pub fn file_by_filename(&self, filename: &str) -> (r: MessageResponse)
        requires
            self.wf(),
        ensures
            self.answers_filename(filename@, r),
    {
        file_descriptor_response(self.descriptor_map.by_filename(filename))
    }

    /// Extensions are not supported, whatever is asked.
    pub fn file_containing_extension(&self, _ext_typ: &str, _ext_num: i32) -> (r: MessageResponse)
        ensures
            is_unsupported(r),
    {
        unsupported_response()
    }

    /// Extensions are not supported, whatever is asked.
    pub fn extension_numbers_of_type(&self, _ty: &str) -> (r: MessageResponse)
        ensures
            is_unsupported(r),
    {
        unsupported_response()
    }

    /// Answers one request.
    pub fn handle(&self, request: &MessageRequest) -> (r: MessageResponse)
        requires
            self.wf(),
        ensures
            self.answers(*request, r),
    {
        match request {
            MessageRequest::FileByFilename(filename) => self.file_by_filename(filename.as_str()),
            MessageRequest::FileContainingSymbol(symbol) => self.file_containing_symbol(
                symbol.as_str(),
            ),
            MessageRequest::FileContainingExtension(ext) => self.file_containing_extension(
                ext.containing_type.as_str(),
                ext.extension_number,
            ),
            MessageRequest::AllExtensionNumbersOfType(ty) => self.extension_numbers_of_type(
                ty.as_str(),
            ),
            MessageRequest::ListServices(content) => self.list_services(content.as_str()),
        }
    }
}

} // verus!

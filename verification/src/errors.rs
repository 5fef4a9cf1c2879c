//! The failures that the library reports.

use vstd::prelude::*;
use vstd::string::StringExecFns;

verus! {

/// What went wrong.
#[derive(Debug, Clone, Copy, PartialEq, Eq, Structural)]
pub enum Reason {
    /// A bucket listing could not be decoded.
    InvalidXml,
    /// A request failed in transport, or the server answered with a failure.
    ConnectionFailed,
    /// The catalog could not be opened, read or written.
    OpenDatabaseFailed,
    /// The server offers less than an archive can be.
    InvalidResource,
    /// The archive's digest is not the published one.
    Hashinconformity,
    /// A file operation failed.
    IoOperationFailed,
    /// The archive could not be unpacked.
    UncompressFailed,
    /// The destination has no final component to derive a staging name from.
    InvalidInstallPath,
    /// The download location exists and is not a directory.
    InvalidDownloadPath,
}

/// A failure: its kind and a message for the user.
#[derive(Debug)]
pub struct Error {
    pub kind: Reason,
    pub msg: String,
}

impl Reason {
    /// The fixed description of the kind.
    pub fn to_string(&self) -> (r: String)
        ensures
            r@ == self.description()@,
    {
        String::from_str(self.description())
    }

    /// The fixed description of the kind, as a string slice.
    #[verifier::when_used_as_spec(spec_description)]
    pub fn description(&self) -> (r: &'static str)
        ensures
            r == self.spec_description(),
    {
        match self {
            Reason::InvalidXml => "无效的xml格式",
            Reason::ConnectionFailed => "网络链接错误",
            Reason::OpenDatabaseFailed => "打开数据库失败",
            Reason::InvalidResource => "无效的资源",
            Reason::Hashinconformity => "hash不一致",
            Reason::IoOperationFailed => "io操作失败",
            Reason::UncompressFailed => "解压失败",
            Reason::InvalidInstallPath => "无效的安装路径",
            Reason::InvalidDownloadPath => "无效的下载路径",
        }
    }

    pub open spec fn spec_description(&self) -> &'static str {
        match self {
            Reason::InvalidXml => "无效的xml格式",
            Reason::ConnectionFailed => "网络链接错误",
            Reason::OpenDatabaseFailed => "打开数据库失败",
            Reason::InvalidResource => "无效的资源",
            Reason::Hashinconformity => "hash不一致",
            Reason::IoOperationFailed => "io操作失败",
            Reason::UncompressFailed => "解压失败",
            Reason::InvalidInstallPath => "无效的安装路径",
            Reason::InvalidDownloadPath => "无效的下载路径",
        }
    }
}

impl Error {
    /// A failure of the given kind with the given message.
    pub fn new(kind: Reason, msg: &str) -> (r: Error)
        ensures
            r.kind == kind,
            r.msg@ == msg@,
    {
        Error { kind, msg: String::from_str(msg) }
    }

    /// A failure of the given kind whose message is the kind's fixed
    /// description.
    pub fn of_kind(kind: Reason) -> (r: Error)
        ensures
            r.kind == kind,
            r.msg@ == kind.description()@,
    {
        Error { kind, msg: kind.to_string() }
    }

    /// The message of the failure.
    pub fn to_string(&self) -> (r: String)
        ensures
            r@ == self.msg@,
    {
        self.msg.clone()
    }
}

} // verus!

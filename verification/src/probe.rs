//! Error and policy types of the wider agent (patches, hooks, approvals,
//! tools, model requests), with the messages they report.

use vstd::prelude::*;

use crate::text::{decimal, decimal_string, push_str, string_of};

verus! {

#[verifier::external_type_specification]
#[verifier::external_body]
pub struct ExIoError(std::io::Error);

/// A network failure, as a transport reports it (it carries no detail here).
#[derive(Debug)]
pub struct Error;

/// Why a tool call failed.
#[derive(Debug)]
pub enum ToolError {
    BadArguments(String),
    Internal(String),
    /// Used by remote (MCP) tools when arguments fail their schema.
    InvalidArgs,
}

/// Why a patch was refused.
#[derive(Debug)]
pub enum PatchError {
    EmptyPath,
    Parse { line: usize, msg: String },
    PathTraversal { attempted: String },
    ContextNotFound { line: usize, path: String, context: String },
    HunkHasNoAnchor,
    TooManyFiles { n: usize, max: usize },
}

/// Why a hook failed.
#[derive(Debug)]
pub enum HookError {
    Timeout { command: String },
    Cancelled,
    Io(std::io::Error),
}

/// What a hook decides.
#[derive(Debug, Clone)]
pub enum HookVerdict {
    Continue,
    /// Only a pre-tool-use hook may block.
    Block(String),
}

/// When the user is asked to approve a command.
#[derive(Debug, Clone, Copy, PartialEq, Eq, Structural)]
pub enum ApprovalPolicy {
    /// Only known read-only or safe commands run unasked; all others ask.
    Untrusted,
    /// Run in the sandbox unasked; ask only when that fails.
    OnFailure,
    /// The model may ask for approval explicitly; otherwise risk rules decide.
    OnRequest,
    /// Never ask; a refusal goes back to the model as a tool error.
    Never,
}

/// Why a model request failed.
#[derive(Debug)]
pub enum LlmError {
    Network(Error),
    Malformed(String),
    Cancelled,
}

impl ToolError {
    /// The message this error reports.
    pub fn message(&self) -> (s: String)
        ensures
            s@ == match self {
                ToolError::BadArguments(m) => "参数无法解析: "@ + m@,
                ToolError::Internal(m) => "工具内部错误: "@ + m@,
                ToolError::InvalidArgs => "参数不合法: 缺少字段或类型不符"@,
            },
    {
        match self {
            ToolError::BadArguments(m) => {
                let mut s = string_of("参数无法解析: ");
                push_str(&mut s, m.as_str());
                s
            },
            ToolError::Internal(m) => {
                let mut s = string_of("工具内部错误: ");
                push_str(&mut s, m.as_str());
                s
            },
            ToolError::InvalidArgs => string_of("参数不合法: 缺少字段或类型不符"),
        }
    }
}

impl PatchError {
    /// The message this error reports.
    pub fn message(&self) -> (s: String)
        ensures
            s@ == match self {
                PatchError::EmptyPath => "路径为空，拒绝处理"@,
                PatchError::Parse { line, msg } => "[行 "@ + decimal(*line as nat) + "] 解析错误: "@
                    + msg@,
                PatchError::PathTraversal { attempted } => "路径穿越被拒绝: "@ + attempted@,
                PatchError::ContextNotFound { line, path, context } => "[行 "@ + decimal(
                    *line as nat,
                ) + "] Update File "@ + path@ + ": 未找到上下文匹配\n  期望:\n"@ + context@,
                PatchError::HunkHasNoAnchor => "hunk 缺少上下文（纯 + 行无法定位）"@,
                PatchError::TooManyFiles { n, max } => "改动文件数 "@ + decimal(*n as nat)
                    + " 超过上限 "@ + decimal(*max as nat),
            },
    {
        match self {
            PatchError::EmptyPath => string_of("路径为空，拒绝处理"),
            PatchError::Parse { line, msg } => {
                let mut s = string_of("[行 ");
                push_str(&mut s, decimal_string(*line).as_str());
                push_str(&mut s, "] 解析错误: ");
                push_str(&mut s, msg.as_str());
                s
            },
            PatchError::PathTraversal { attempted } => {
                let mut s = string_of("路径穿越被拒绝: ");
                push_str(&mut s, attempted.as_str());
                s
            },
            PatchError::ContextNotFound { line, path, context } => {
                let mut s = string_of("[行 ");
                push_str(&mut s, decimal_string(*line).as_str());
                push_str(&mut s, "] Update File ");
                push_str(&mut s, path.as_str());
                push_str(&mut s, ": 未找到上下文匹配\n  期望:\n");
                push_str(&mut s, context.as_str());
                s
            },
            PatchError::HunkHasNoAnchor => string_of("hunk 缺少上下文（纯 + 行无法定位）"),
            PatchError::TooManyFiles { n, max } => {
                let mut s = string_of("改动文件数 ");
                push_str(&mut s, decimal_string(*n).as_str());
                push_str(&mut s, " 超过上限 ");
                push_str(&mut s, decimal_string(*max).as_str());
                s
            },
        }
    }
}

/// `std::io::Error`'s `Display` text (`ToString::to_string`). Nothing is
/// stated of it: it depends on the operating system's error messages.
#[verifier::external_body]
fn io_error_text(e: &std::io::Error) -> String {
    e.to_string()
}

impl HookError {
    /// The message this error reports; for an I/O failure, the system's text
    /// follows the fixed prefix.
    pub fn message(&self) -> (s: String)
        ensures
            match self {
                HookError::Timeout { command } => s@ == "hook 执行超时: "@ + command@,
                HookError::Cancelled => s@ == "hook 被用户取消"@,
                HookError::Io(_) => s@.len() >= "hook 底层进程错误: "@.len() && s@.take(
                    "hook 底层进程错误: "@.len() as int,
                ) == "hook 底层进程错误: "@,
            },
    {
        match self {
            HookError::Timeout { command } => {
                let mut s = string_of("hook 执行超时: ");
                push_str(&mut s, command.as_str());
                s
            },
            HookError::Cancelled => string_of("hook 被用户取消"),
            HookError::Io(e) => {
                let mut s = string_of("hook 底层进程错误: ");
                let ghost prefix = s@;
                push_str(&mut s, io_error_text(e).as_str());
                assert(s@.take(prefix.len() as int) =~= prefix);
                s
            },
        }
    }
}

impl LlmError {
    /// The message this error reports.
    pub fn message(&self) -> (s: String)
        ensures
            s@ == match self {
                LlmError::Network(_) => "网络错误: "@,
                LlmError::Malformed(m) => "响应格式无法解析: "@ + m@,
                LlmError::Cancelled => "请求被取消（收到取消信号，见第 17 章）"@,
            },
    {
        match self {
            LlmError::Network(_) => string_of("网络错误: "),
            LlmError::Malformed(m) => {
                let mut s = string_of("响应格式无法解析: ");
                push_str(&mut s, m.as_str());
                s
            },
            LlmError::Cancelled => string_of("请求被取消（收到取消信号，见第 17 章）"),
        }
    }
}

} // verus!

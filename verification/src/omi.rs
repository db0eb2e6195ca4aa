//! O-MI messages: the envelope and its read, write, delete, cancel and
//! response operations. Times and intervals are held as the bits of IEEE 754
//! doubles, as O-DF numbers are.

use vstd::prelude::*;
use crate::odf::object::{child_map, Object, ObjectView};
use crate::odf::{OmiValue, OmiValueView};
use crate::odf::object::opt_text;
use crate::odf::value::{value_views, Value, ValueView};

verus! {

/// A read operation: a one-time read of `path`, a poll of subscription
/// `rid`, or, with an `interval`, a subscription.
#[derive(Debug)]
pub struct ReadOp {
    pub path: Option<String>,
    pub rid: Option<String>,
    pub newest: Option<u64>,
    pub oldest: Option<u64>,
    pub begin: Option<u64>,
    pub end: Option<u64>,
    pub depth: Option<u64>,
    pub interval: Option<u64>,
    pub callback: Option<String>,
}

/// One value written to one item.
#[derive(Debug)]
pub struct WriteItem {
    pub path: String,
    pub v: OmiValue,
    pub t: Option<u64>,
}

/// A write operation: one value, a batch of values, or a tree of objects.
#[derive(Debug)]
pub enum WriteOp {
    Single { path: String, v: OmiValue, t: Option<u64> },
    Batch { items: Vec<WriteItem> },
    Tree { path: String, objects: Vec<(String, Object)> },
}

/// A delete operation.
#[derive(Debug)]
pub struct DeleteOp {
    pub path: String,
}

/// A cancel operation: the subscriptions to end.
#[derive(Debug)]
pub struct CancelOp {
    pub rid: Vec<String>,
}

/// The status of one item in a batch response.
#[derive(Debug)]
pub struct ItemStatus {
    pub path: String,
    pub status: u16,
    pub desc: Option<String>,
}

/// The payload of a single response result: nothing, or the values read at
/// a path.
#[derive(Debug)]
pub enum ResultPayload {
    Null,
    ReadValues { path: String, values: Vec<Value> },
}

/// The result of a response.
#[derive(Debug)]
pub enum ResponseResult {
    Single(ResultPayload),
    Batch(Vec<ItemStatus>),
}

/// A response body.
#[derive(Debug)]
pub struct ResponseBody {
    pub status: u16,
    pub rid: Option<String>,
    pub desc: Option<String>,
    pub result: Option<ResponseResult>,
}

/// The operation a message carries.
#[derive(Debug)]
pub enum Operation {
    Read(ReadOp),
    Write(WriteOp),
    Delete(DeleteOp),
    Cancel(CancelOp),
    Response(ResponseBody),
}

/// An O-MI message.
#[derive(Debug)]
pub struct OmiMessage {
    pub version: String,
    pub ttl: i64,
    pub operation: Operation,
}

/// The model of a [`ReadOp`].
pub struct ReadOpView {
    pub path: Option<Seq<char>>,
    pub rid: Option<Seq<char>>,
    pub newest: Option<u64>,
    pub oldest: Option<u64>,
    pub begin: Option<u64>,
    pub end: Option<u64>,
    pub depth: Option<u64>,
    pub interval: Option<u64>,
    pub callback: Option<Seq<char>>,
}

/// The model of a [`WriteItem`].
pub struct WriteItemView {
    pub path: Seq<char>,
    pub v: OmiValueView,
    pub t: Option<u64>,
}

/// The model of a [`WriteOp`].
pub enum WriteOpView {
    Single { path: Seq<char>, v: OmiValueView, t: Option<u64> },
    Batch { items: Seq<WriteItemView> },
    Tree { path: Seq<char>, objects: Map<Seq<char>, ObjectView> },
}

/// The model of an [`ItemStatus`].
pub struct ItemStatusView {
    pub path: Seq<char>,
    pub status: u16,
    pub desc: Option<Seq<char>>,
}

/// The model of a [`ResultPayload`].
pub enum ResultPayloadView {
    Null,
    ReadValues { path: Seq<char>, values: Seq<ValueView> },
}

/// The model of a [`ResponseResult`].
pub enum ResponseResultView {
    Single(ResultPayloadView),
    Batch(Seq<ItemStatusView>),
}

/// The model of a [`ResponseBody`].
pub struct ResponseBodyView {
    pub status: u16,
    pub rid: Option<Seq<char>>,
    pub desc: Option<Seq<char>>,
    pub result: Option<ResponseResultView>,
}

/// The model of an [`Operation`].
pub enum OperationView {
    Read(ReadOpView),
    Write(WriteOpView),
    Delete(Seq<char>),
    Cancel(Seq<Seq<char>>),
    Response(ResponseBodyView),
}

/// The model of an [`OmiMessage`].
pub struct OmiMessageView {
    pub version: Seq<char>,
    pub ttl: i64,
    pub operation: OperationView,
}

impl View for ReadOp {
    type V = ReadOpView;

    open spec fn view(&self) -> ReadOpView {
        ReadOpView {
            path: opt_text(self.path),
            rid: opt_text(self.rid),
            newest: self.newest,
            oldest: self.oldest,
            begin: self.begin,
            end: self.end,
            depth: self.depth,
            interval: self.interval,
            callback: opt_text(self.callback),
        }
    }
}

impl View for WriteItem {
    type V = WriteItemView;

    open spec fn view(&self) -> WriteItemView {
        WriteItemView { path: self.path@, v: self.v@, t: self.t }
    }
}

/// The models of written items.
pub open spec fn write_item_views(s: Seq<WriteItem>) -> Seq<WriteItemView> {
    s.map_values(|x: WriteItem| x@)
}

impl View for WriteOp {
    type V = WriteOpView;

    open spec fn view(&self) -> WriteOpView {
        match self {
            WriteOp::Single { path, v, t } => WriteOpView::Single { path: path@, v: v@, t: *t },
            WriteOp::Batch { items } => WriteOpView::Batch { items: write_item_views(items@) },
            WriteOp::Tree { path, objects } => WriteOpView::Tree { path: path@, objects: child_map(objects@) },
        }
    }
}

impl View for ItemStatus {
    type V = ItemStatusView;

    open spec fn view(&self) -> ItemStatusView {
        ItemStatusView { path: self.path@, status: self.status, desc: opt_text(self.desc) }
    }
}

/// The models of item statuses.
pub open spec fn item_status_views(s: Seq<ItemStatus>) -> Seq<ItemStatusView> {
    s.map_values(|x: ItemStatus| x@)
}

impl View for ResultPayload {
    type V = ResultPayloadView;

    open spec fn view(&self) -> ResultPayloadView {
        match self {
            ResultPayload::Null => ResultPayloadView::Null,
            ResultPayload::ReadValues { path, values } => ResultPayloadView::ReadValues {
                path: path@,
                values: value_views(values@),
            },
        }
    }
}

impl View for ResponseResult {
    type V = ResponseResultView;

    open spec fn view(&self) -> ResponseResultView {
        match self {
            ResponseResult::Single(p) => ResponseResultView::Single(p@),
            ResponseResult::Batch(v) => ResponseResultView::Batch(item_status_views(v@)),
        }
    }
}

/// The model of an optional response result.
pub open spec fn opt_result(r: Option<ResponseResult>) -> Option<ResponseResultView> {
    match r {
        Some(x) => Some(x@),
        None => None,
    }
}

impl View for ResponseBody {
    type V = ResponseBodyView;

    open spec fn view(&self) -> ResponseBodyView {
        ResponseBodyView {
            status: self.status,
            rid: opt_text(self.rid),
            desc: opt_text(self.desc),
            result: opt_result(self.result),
        }
    }
}

/// The texts of strings.
pub open spec fn texts(s: Seq<String>) -> Seq<Seq<char>> {
    s.map_values(|x: String| x@)
}

impl View for Operation {
    type V = OperationView;

    open spec fn view(&self) -> OperationView {
        match self {
            Operation::Read(r) => OperationView::Read(r@),
            Operation::Write(w) => OperationView::Write(w@),
            Operation::Delete(d) => OperationView::Delete(d.path@),
            Operation::Cancel(c) => OperationView::Cancel(texts(c.rid@)),
            Operation::Response(b) => OperationView::Response(b@),
        }
    }
}

impl View for OmiMessage {
    type V = OmiMessageView;

    open spec fn view(&self) -> OmiMessageView {
        OmiMessageView { version: self.version@, ttl: self.ttl, operation: self.operation@ }
    }
}

/// A read that sets up a subscription: one with an interval and no
/// subscription id to poll.
pub open spec fn is_subscription(r: ReadOpView) -> bool {
    r.interval is Some && r.rid is None
}

impl ReadOp {
    /// Whether this read sets up a subscription.
    pub fn is_subscription(&self) -> (r: bool)
        ensures
            r == is_subscription(self@),
    {
        self.interval.is_some() && self.rid.is_none()
    }
}

/// Whether an operation changes state: writes, deletes, cancels and
/// subscriptions do; one-time reads, polls and responses do not.
pub open spec fn is_mutating(op: OperationView) -> bool {
    match op {
        OperationView::Write(_) | OperationView::Delete(_) | OperationView::Cancel(_) => true,
        OperationView::Read(r) => is_subscription(r),
        OperationView::Response(_) => false,
    }
}

} // verus!

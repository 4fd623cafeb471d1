//! Data carried between the control plane, the queues and the workers.
use vstd::prelude::*;

verus! {

/// A task-creation request as received by the control plane.
#[allow(non_snake_case)]
pub struct TaskAddRequest {
    pub name: String,
    pub target: String,
    pub ignore: String,
    pub node: Vec<String>,
    pub allNode: bool,
    pub scheduledTasks: bool,
    pub template: String,
    pub duplicates: bool,
    pub cycleType: Option<String>,
    pub hour: Option<u32>,
    pub minute: Option<u32>,
    pub day: Option<u32>,
}

/// One resolved template parameter: a module's plugin with its arguments.
pub struct ParamEntry {
    pub module: String,
    pub plugin: String,
    pub args: String,
}

/// The resolved payload fanned out to every destination node's queue.
#[allow(non_snake_case)]
pub struct DispatchTemplate {
    pub Parameters: Vec<ParamEntry>,
    pub TaskName: String,
    pub ignore: String,
    pub duplicates: bool,
    pub ID: String,
    pub task_type: String,
    pub IsStart: bool,
}

/// The mathematical content of a dispatch payload.
#[verifier::ext_equal]
pub ghost struct DispatchView {
    pub params: Seq<(Seq<char>, Seq<char>, Seq<char>)>,
    pub task_name: Seq<char>,
    pub ignore: Seq<char>,
    pub duplicates: bool,
    pub id: Seq<char>,
    pub task_type: Seq<char>,
    pub is_start: bool,
}

pub open spec fn param_views(s: Seq<ParamEntry>) -> Seq<(Seq<char>, Seq<char>, Seq<char>)> {
    Seq::new(s.len(), |i: int| (s[i].module@, s[i].plugin@, s[i].args@))
}

impl View for DispatchTemplate {
    type V = DispatchView;

    open spec fn view(&self) -> DispatchView {
        DispatchView {
            params: param_views(self.Parameters@),
            task_name: self.TaskName@,
            ignore: self.ignore@,
            duplicates: self.duplicates,
            id: self.ID@,
            task_type: self.task_type@,
            is_start: self.IsStart,
        }
    }
}

impl DispatchTemplate {
    /// An exact copy, as enqueued once per destination node.
    pub fn duplicate(&self) -> (r: DispatchTemplate)
        ensures
            r@ == self@,
    {
        let mut params: Vec<ParamEntry> = Vec::new();
        let n = self.Parameters.len();
        let mut i: usize = 0;
        while i < n
            invariant
                i <= n,
                n == self.Parameters@.len(),
                params@.len() == i,
                forall|k: int|
                    0 <= k < i ==> params@[k].module@ == self.Parameters@[k].module@
                        && params@[k].plugin@ == self.Parameters@[k].plugin@ && params@[k].args@
                        == self.Parameters@[k].args@,
            decreases n - i,
        {
            let e = ParamEntry {
                module: self.Parameters[i].module.clone(),
                plugin: self.Parameters[i].plugin.clone(),
                args: self.Parameters[i].args.clone(),
            };
            params.push(e);
            i = i + 1;
        }
        let r = DispatchTemplate {
            Parameters: params,
            TaskName: self.TaskName.clone(),
            ignore: self.ignore.clone(),
            duplicates: self.duplicates,
            ID: self.ID.clone(),
            task_type: self.task_type.clone(),
            IsStart: self.IsStart,
        };
        proof {
            assert(param_views(r.Parameters@) =~~= param_views(self.Parameters@));
            assert(r@ =~~= self@);
        }
        r
    }
}

/// A best-effort log notification published on the shared channel.
pub struct NodeLogPayload<'a> {
    pub name: &'a str,
    pub log: &'a str,
}

/// Time zone and other system-wide options.
pub struct SystemSettings {
    pub timezone: Option<String>,
}

/// Connection settings for the document store.
pub struct MongoSettings {
    pub ip: String,
    pub port: u16,
    pub mongodb_database: String,
    pub username: String,
    pub password: String,
}

/// Connection settings for the queue/key-value store.
pub struct RedisSettings {
    pub ip: String,
    pub port: u16,
    pub password: String,
}

/// Log retention options.
pub struct LogsSettings {
    pub total_logs: Option<u32>,
}

/// The whole process configuration.
pub struct AppConfig {
    pub system: SystemSettings,
    pub mongodb: MongoSettings,
    pub redis: RedisSettings,
    pub logs: Option<LogsSettings>,
}

} // verus!

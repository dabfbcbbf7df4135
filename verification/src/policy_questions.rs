//! The seven canonical policy questions answered at every action boundary,
//! and the envelope of their answers.
use crate::text::str_eq;
use vstd::prelude::*;

verus! {

/// Schema version.
pub const SCHEMA_VERSION: &'static str = "1.0.0";

/// Doctrine: what an agent's policy question must ask.
pub const DOCTRINE_AGENT_REQUIREMENT: &'static str =
    "Can subject do action on object for this intent under this profile?";

/// Doctrine: what that question is.
pub const DOCTRINE_THAT_IS_SOVEREIGNTY: &'static str = "That is sovereignty";

/// The seven canonical policy questions.
#[derive(Debug, Clone, Copy, PartialEq, Eq, Hash, Structural)]
pub enum PolicyQuestion {
    /// Q1: can this model see this context?
    ModelSeesContext,
    /// Q2: can this agent use this tool?
    AgentUsesTool,
    /// Q3: can this workflow call cloud?
    WorkflowCallsCloud,
    /// Q4: can this sandbox access network?
    SandboxAccessesNetwork,
    /// Q5: can this memory be written?
    MemoryWriteAllowed,
    /// Q6: can this action mutate files?
    ActionMutatesFiles,
    /// Q7: can this result be committed?
    ResultCommitted,
}

/// The questions in canonical order.
pub open spec fn canonical_questions() -> Seq<PolicyQuestion> {
    seq![
        PolicyQuestion::ModelSeesContext,
        PolicyQuestion::AgentUsesTool,
        PolicyQuestion::WorkflowCallsCloud,
        PolicyQuestion::SandboxAccessesNetwork,
        PolicyQuestion::MemoryWriteAllowed,
        PolicyQuestion::ActionMutatesFiles,
        PolicyQuestion::ResultCommitted,
    ]
}

impl PolicyQuestion {
    /// The question's canonical number, 1 to 7.
    pub open spec fn position_spec(self) -> u8 {
        match self {
            PolicyQuestion::ModelSeesContext => 1,
            PolicyQuestion::AgentUsesTool => 2,
            PolicyQuestion::WorkflowCallsCloud => 3,
            PolicyQuestion::SandboxAccessesNetwork => 4,
            PolicyQuestion::MemoryWriteAllowed => 5,
            PolicyQuestion::ActionMutatesFiles => 6,
            PolicyQuestion::ResultCommitted => 7,
        }
    }

    /// The question's text, verbatim.
    pub open spec fn text_spec(self) -> Seq<char> {
        match self {
            PolicyQuestion::ModelSeesContext => "Can this model see this context?"@,
            PolicyQuestion::AgentUsesTool => "Can this agent use this tool?"@,
            PolicyQuestion::WorkflowCallsCloud => "Can this workflow call cloud?"@,
            PolicyQuestion::SandboxAccessesNetwork => "Can this sandbox access network?"@,
            PolicyQuestion::MemoryWriteAllowed => "Can this memory be written?"@,
            PolicyQuestion::ActionMutatesFiles => "Can this action mutate files?"@,
            PolicyQuestion::ResultCommitted => "Can this result be committed?"@,
        }
    }

    /// Canonical 1..7 question number.
    pub fn position(self) -> (r: u8)
        ensures
            r == self.position_spec(),
    {
        match self {
            PolicyQuestion::ModelSeesContext => 1,
            PolicyQuestion::AgentUsesTool => 2,
            PolicyQuestion::WorkflowCallsCloud => 3,
            PolicyQuestion::SandboxAccessesNetwork => 4,
            PolicyQuestion::MemoryWriteAllowed => 5,
            PolicyQuestion::ActionMutatesFiles => 6,
            PolicyQuestion::ResultCommitted => 7,
        }
    }

    /// Verbatim human-readable question text.
    pub fn text(self) -> (r: &'static str)
        ensures
            r@ == self.text_spec(),
    {
        match self {
            PolicyQuestion::ModelSeesContext => "Can this model see this context?",
            PolicyQuestion::AgentUsesTool => "Can this agent use this tool?",
            PolicyQuestion::WorkflowCallsCloud => "Can this workflow call cloud?",
            PolicyQuestion::SandboxAccessesNetwork => "Can this sandbox access network?",
            PolicyQuestion::MemoryWriteAllowed => "Can this memory be written?",
            PolicyQuestion::ActionMutatesFiles => "Can this action mutate files?",
            PolicyQuestion::ResultCommitted => "Can this result be committed?",
        }
    }

    /// All seven questions in canonical order.
    pub fn all() -> (r: [PolicyQuestion; 7])
        ensures
            r@ == canonical_questions(),
    {
        let r = [
            PolicyQuestion::ModelSeesContext,
            PolicyQuestion::AgentUsesTool,
            PolicyQuestion::WorkflowCallsCloud,
            PolicyQuestion::SandboxAccessesNetwork,
            PolicyQuestion::MemoryWriteAllowed,
            PolicyQuestion::ActionMutatesFiles,
            PolicyQuestion::ResultCommitted,
        ];
        assert(r@ =~= canonical_questions());
        r
    }
}

/// Yes/no/ask outcome for each question.
#[derive(Debug, Clone, Copy, PartialEq, Eq, Hash, Structural)]
pub enum AnswerOutcome {
    /// Yes: proceed.
    Yes,
    /// No: refuse.
    No,
    /// Ask the operator.
    Ask,
}

/// One question with its answer and reason.
#[derive(Debug, Clone, PartialEq, Eq)]
pub struct QuestionAnswer {
    /// Question.
    pub question: PolicyQuestion,
    /// Answer outcome.
    pub answer: AnswerOutcome,
    /// Reason text (operator-readable).
    pub reason: String,
    /// Trace id reference.
    pub trace_id: String,
}

/// The envelope of all seven answers for one action.
#[derive(Debug, Clone, PartialEq, Eq)]
pub struct PolicyAnswerSet {
    /// Wire-stable schema version.
    pub schema_version: String,
    /// All seven answers in canonical order.
    pub answers: Vec<QuestionAnswer>,
}

/// Errors.
#[derive(Debug)]
pub enum PolicyQuestionError {
    /// Schema drift.
    SchemaMismatch {
        /// Expected.
        expected: String,
        /// Observed.
        actual: String,
    },
    /// Answer count other than seven.
    AnswerCountInvalid(usize),
    /// One of the seven questions missing.
    QuestionMissing(PolicyQuestion),
    /// Duplicate question.
    DuplicateQuestion(PolicyQuestion),
    /// Doctrine surface tampered.
    DoctrineTampered {
        /// Expected.
        expected: String,
    },
}

/// Some answer of `answers` is to `q`.
pub open spec fn answered(answers: Seq<QuestionAnswer>, q: PolicyQuestion) -> bool {
    exists|i: int| 0 <= i < answers.len() && (#[trigger] answers[i]).question == q
}

/// The first canonical question from index `from` on that nothing answers.
pub open spec fn first_unanswered(answers: Seq<QuestionAnswer>, from: int) -> Option<PolicyQuestion>
    decreases 7 - from,
{
    if from < 0 || from >= 7 {
        None
    } else if !answered(answers, canonical_questions()[from]) {
        Some(canonical_questions()[from])
    } else {
        first_unanswered(answers, from + 1)
    }
}

/// The question of the first answer (from index `from` on) that repeats an
/// earlier answer's question.
pub open spec fn first_repeat(answers: Seq<QuestionAnswer>, from: int) -> Option<PolicyQuestion>
    decreases answers.len() - from,
{
    if from < 0 || from >= answers.len() {
        None
    } else if exists|j: int| 0 <= j < from && (#[trigger] answers[j]).question == answers[from].question {
        Some(answers[from].question)
    } else {
        first_repeat(answers, from + 1)
    }
}

/// What validation reports for an envelope, short of the schema check:
/// a wrong count, then the first missing question, then the first repeat.
pub open spec fn answers_fault(answers: Seq<QuestionAnswer>) -> Option<PolicyQuestionError> {
    if answers.len() != 7 {
        Some(PolicyQuestionError::AnswerCountInvalid(answers.len() as usize))
    } else {
        match first_unanswered(answers, 0) {
            Some(q) => Some(PolicyQuestionError::QuestionMissing(q)),
            None => match first_repeat(answers, 0) {
                Some(q) => Some(PolicyQuestionError::DuplicateQuestion(q)),
                None => None,
            },
        }
    }
}

/// Whether `answers` holds an answer to `q`.
fn has_answer(answers: &Vec<QuestionAnswer>, q: PolicyQuestion) -> (r: bool)
    ensures
        r == answered(answers@, q),
{
    let mut i: usize = 0;
    while i < answers.len()
        invariant
            i <= answers@.len(),
            forall|j: int| 0 <= j < i ==> (#[trigger] answers@[j]).question != q,
        decreases answers@.len() - i,
    {
        if answers[i].question == q {
            return true;
        }
        i += 1;
    }
    false
}

impl PolicyAnswerSet {
    /// Whether an answer before index `end` is to `q`.
    fn earlier(&self, end: usize, q: PolicyQuestion) -> (r: bool)
        requires
            end <= self.answers@.len(),
        ensures
            r == exists|j: int| 0 <= j < end && (#[trigger] self.answers@[j]).question == q,
    {
        let mut j: usize = 0;
        while j < end
            invariant
                j <= end <= self.answers@.len(),
                forall|m: int| 0 <= m < j ==> (#[trigger] self.answers@[m]).question != q,
            decreases end - j,
        {
            if self.answers[j].question == q {
                return true;
            }
            j += 1;
        }
        false
    }

    /// Validate the envelope: the schema version, exactly seven answers,
    /// every question answered, none twice.
    pub fn validate(&self) -> (r: Result<(), PolicyQuestionError>)
        ensures
            self.schema_version@ != SCHEMA_VERSION@ ==> (r matches Err(
                PolicyQuestionError::SchemaMismatch { expected, actual },
            ) && expected@ == SCHEMA_VERSION@ && actual@ == self.schema_version@),
            self.schema_version@ == SCHEMA_VERSION@ ==> match answers_fault(self.answers@) {
                Some(PolicyQuestionError::AnswerCountInvalid(n)) => r matches Err(
                    PolicyQuestionError::AnswerCountInvalid(m),
                ) && m == n,
                Some(PolicyQuestionError::QuestionMissing(q)) => r matches Err(
                    PolicyQuestionError::QuestionMissing(p),
                ) && p == q,
                Some(PolicyQuestionError::DuplicateQuestion(q)) => r matches Err(
                    PolicyQuestionError::DuplicateQuestion(p),
                ) && p == q,
                Some(_) => false,
                None => r is Ok,
            },
    {
        if !str_eq(self.schema_version.as_str(), SCHEMA_VERSION) {
            return Err(
                PolicyQuestionError::SchemaMismatch {
                    expected: SCHEMA_VERSION.to_owned(),
                    actual: self.schema_version.clone(),
                },
            );
        }
        if self.answers.len() != 7 {
            return Err(PolicyQuestionError::AnswerCountInvalid(self.answers.len()));
        }
        let all = PolicyQuestion::all();
        let mut k: usize = 0;
        while k < 7
            invariant
                all@ == canonical_questions(),
                self.schema_version@ == SCHEMA_VERSION@,
                k <= 7,
                self.answers@.len() == 7,
                first_unanswered(self.answers@, 0) == first_unanswered(self.answers@, k as int),
            decreases 7 - k,
        {
            let q = all[k];
            if !has_answer(&self.answers, q) {
                return Err(PolicyQuestionError::QuestionMissing(q));
            }
            k += 1;
        }
        let mut i: usize = 0;
        while i < self.answers.len()
            invariant
                i <= self.answers@.len(),
                first_unanswered(self.answers@, 0) is None,
                self.schema_version@ == SCHEMA_VERSION@,
                self.answers@.len() == 7,
                first_repeat(self.answers@, 0) == first_repeat(self.answers@, i as int),
            decreases self.answers@.len() - i,
        {
            let q = self.answers[i].question;
            if self.earlier(i, q) {
                return Err(PolicyQuestionError::DuplicateQuestion(q));
            }
            i += 1;
        }
        Ok(())
    }

    /// True iff every answer is Yes.
    pub fn all_yes(&self) -> (r: bool)
        ensures
            r == forall|i: int|
                0 <= i < self.answers@.len() ==> (#[trigger] self.answers@[i]).answer
                    == AnswerOutcome::Yes,
    {
        let mut i: usize = 0;
        while i < self.answers.len()
            invariant
                i <= self.answers@.len(),
                forall|j: int| 0 <= j < i ==> (#[trigger] self.answers@[j]).answer == AnswerOutcome::Yes,
            decreases self.answers@.len() - i,
        {
            if self.answers[i].answer != AnswerOutcome::Yes {
                return false;
            }
            i += 1;
        }
        true
    }

    /// Whether some answer has the outcome `o`.
    fn any_outcome(&self, o: AnswerOutcome) -> (r: bool)
        ensures
            r == exists|i: int| 0 <= i < self.answers@.len() && (#[trigger] self.answers@[i]).answer == o,
    {
        let mut i: usize = 0;
        while i < self.answers.len()
            invariant
                i <= self.answers@.len(),
                forall|j: int| 0 <= j < i ==> (#[trigger] self.answers@[j]).answer != o,
            decreases self.answers@.len() - i,
        {
            if self.answers[i].answer == o {
                return true;
            }
            i += 1;
        }
        false
    }

    /// True iff any answer is No.
    pub fn any_no(&self) -> (r: bool)
        ensures
            r == exists|i: int|
                0 <= i < self.answers@.len() && (#[trigger] self.answers@[i]).answer == AnswerOutcome::No,
    {
        self.any_outcome(AnswerOutcome::No)
    }

    /// True iff any answer is Ask (queues operator approval).
    pub fn any_ask(&self) -> (r: bool)
        ensures
            r == exists|i: int|
                0 <= i < self.answers@.len() && (#[trigger] self.answers@[i]).answer == AnswerOutcome::Ask,
    {
        self.any_outcome(AnswerOutcome::Ask)
    }

    /// The questions answered No, in answer order.
    pub fn refused_questions(&self) -> (r: Vec<PolicyQuestion>)
        ensures
            r@ == refused(self.answers@),
    {
        let mut out: Vec<PolicyQuestion> = Vec::new();
        let mut i: usize = 0;
        while i < self.answers.len()
            invariant
                i <= self.answers@.len(),
                out@ == refused(self.answers@.take(i as int)),
            decreases self.answers@.len() - i,
        {
            proof {
                assert(self.answers@.take(i + 1).drop_last() =~= self.answers@.take(i as int));
            }
            if self.answers[i].answer == AnswerOutcome::No {
                out.push(self.answers[i].question);
            }
            i += 1;
        }
        proof {
            assert(self.answers@.take(self.answers@.len() as int) =~= self.answers@);
        }
        out
    }
}

/// The questions of the answers that are No, in order.
pub open spec fn refused(answers: Seq<QuestionAnswer>) -> Seq<PolicyQuestion>
    decreases answers.len(),
{
    if answers.len() == 0 {
        Seq::empty()
    } else {
        refused(answers.drop_last()) + if answers.last().answer == AnswerOutcome::No {
            seq![answers.last().question]
        } else {
            Seq::empty()
        }
    }
}

/// Validate the two doctrine constants.
pub fn assert_doctrines_intact(agent_req: &str, sovereignty: &str) -> (r: Result<
    (),
    PolicyQuestionError,
>)
    ensures
        agent_req@ != DOCTRINE_AGENT_REQUIREMENT@ ==> (r matches Err(
            PolicyQuestionError::DoctrineTampered { expected },
        ) && expected@ == DOCTRINE_AGENT_REQUIREMENT@),
        agent_req@ == DOCTRINE_AGENT_REQUIREMENT@ && sovereignty@ != DOCTRINE_THAT_IS_SOVEREIGNTY@
            ==> (r matches Err(PolicyQuestionError::DoctrineTampered { expected }) && expected@
            == DOCTRINE_THAT_IS_SOVEREIGNTY@),
        agent_req@ == DOCTRINE_AGENT_REQUIREMENT@ && sovereignty@ == DOCTRINE_THAT_IS_SOVEREIGNTY@
            ==> r is Ok,
{
    if !str_eq(agent_req, DOCTRINE_AGENT_REQUIREMENT) {
        return Err(
            PolicyQuestionError::DoctrineTampered { expected: DOCTRINE_AGENT_REQUIREMENT.to_owned() },
        );
    }
    if !str_eq(sovereignty, DOCTRINE_THAT_IS_SOVEREIGNTY) {
        return Err(
            PolicyQuestionError::DoctrineTampered { expected: DOCTRINE_THAT_IS_SOVEREIGNTY.to_owned() },
        );
    }
    Ok(())
}

/// An envelope's answers in the plain terms of the rules: seven of them,
/// every question answered, and no question answered twice.
pub open spec fn answers_ok(answers: Seq<QuestionAnswer>) -> bool {
    &&& answers.len() == 7
    &&& forall|q: PolicyQuestion| #[trigger] answered(answers, q)
    &&& forall|i: int, j: int| 0 <= i < j < answers.len() ==> answers[i].question != answers[j].question
}

proof fn lemma_first_unanswered_none(answers: Seq<QuestionAnswer>, from: int)
    requires
        0 <= from <= 7,
    ensures
        first_unanswered(answers, from) is None <==> forall|k: int| from <= k < 7 ==> answered(
            answers,
            #[trigger] canonical_questions()[k],
        ),
    decreases 7 - from,
{
    if from < 7 {
        lemma_first_unanswered_none(answers, from + 1);
    }
}

proof fn lemma_first_repeat_none(answers: Seq<QuestionAnswer>, from: int)
    requires
        0 <= from <= answers.len(),
    ensures
        first_repeat(answers, from) is None <==> forall|i: int, j: int|
            0 <= i < j && from <= j < answers.len() ==> #[trigger] answers[i].question != #[trigger] answers[j].question,
    decreases answers.len() - from,
{
    if from < answers.len() {
        lemma_first_repeat_none(answers, from + 1);
        if exists|j: int| 0 <= j < from && (#[trigger] answers[j]).question == answers[from].question {
            let j = choose|j: int| 0 <= j < from && (#[trigger] answers[j]).question == answers[from].question;
            assert(answers[j].question == answers[from].question);
        }
    }
}

/// The answers are faultless exactly when they meet the rules stated plainly:
/// seven answers, every question answered, none answered twice.
pub proof fn law_answers_fault_none_iff_rules_hold(answers: Seq<QuestionAnswer>)
    ensures
        answers_fault(answers) is None <==> answers_ok(answers),
{
    if answers.len() == 7 {
        lemma_first_unanswered_none(answers, 0);
        lemma_first_repeat_none(answers, 0);
        let all = forall|q: PolicyQuestion| #[trigger] answered(answers, q);
        assert(first_unanswered(answers, 0) is None <==> all) by {
            if first_unanswered(answers, 0) is None {
                assert forall|q: PolicyQuestion| #[trigger] answered(answers, q) by {
                    match q {
                        PolicyQuestion::ModelSeesContext => assert(answered(answers, canonical_questions()[0])),
                        PolicyQuestion::AgentUsesTool => assert(answered(answers, canonical_questions()[1])),
                        PolicyQuestion::WorkflowCallsCloud => assert(answered(answers, canonical_questions()[2])),
                        PolicyQuestion::SandboxAccessesNetwork => assert(answered(answers, canonical_questions()[3])),
                        PolicyQuestion::MemoryWriteAllowed => assert(answered(answers, canonical_questions()[4])),
                        PolicyQuestion::ActionMutatesFiles => assert(answered(answers, canonical_questions()[5])),
                        PolicyQuestion::ResultCommitted => assert(answered(answers, canonical_questions()[6])),
                    }
                }
            }
            if all {
                assert forall|k: int| 0 <= k < 7 implies answered(answers, #[trigger] canonical_questions()[k]) by {
                    assert(answered(answers, canonical_questions()[k]));
                }
            }
        }
    }
}

} // verus!

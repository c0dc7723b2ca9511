//! The classifier: what is decided between the computations of the two
//! models.
//!
//! A prediction passes through three computations that are made outside this
//! library: the network's forward pass, the secondary linear model, and the
//! logistic transform. Each stage of a prediction names what is to be
//! computed next, and takes the result to reach the next stage.

use crate::raster::{input_in_reach, input_tensor, input_tensor_of, RgbImage};
use crate::score::{exceeds_half, key_of};
use crate::select::{
    candidate_count, is_top_k, lemma_candidate_count_bound, lemma_top_k_above_half,
    lemma_top_k_descending, lemma_top_k_exists, lemma_top_k_is_chosen, top_k, top_k_of,
};
use crate::Error;
use vstd::prelude::*;

verus! {

/// What a classifier is made from.
pub struct Params {
    /// The names of the general tags, in the order of the network's outputs.
    pub general_tags: Vec<String>,
    /// The names of the character tags, in the order of the secondary
    /// model's outputs.
    pub character_tags: Vec<String>,
    /// How many tags of each vocabulary a prediction holds at most.
    pub topk: usize,
    /// The number of scores that the network declares to put out.
    pub network_outputs: usize,
    /// The number of rows of the secondary model's matrix.
    pub secondary_inputs: usize,
    /// The number of columns of the secondary model's matrix.
    pub secondary_outputs: usize,
    /// The length of the secondary model's bias.
    pub secondary_bias: usize,
}

/// A name of a vocabulary with the score it was given.
#[derive(Debug, Clone, Copy)]
pub struct Tag<'a> {
    pub name: &'a str,
    pub score: u32,
}

impl View for Tag<'_> {
    type V = (Seq<char>, u32);

    open spec fn view(&self) -> (Seq<char>, u32) {
        (self.name@, self.score)
    }
}

/// The names of a vocabulary.
pub open spec fn names_of(vocabulary: Seq<String>) -> Seq<Seq<char>> {
    Seq::new(vocabulary.len(), |i: int| vocabulary[i]@)
}

/// The tags as mathematical values.
pub open spec fn tags_view(tags: Seq<Tag<'_>>) -> Seq<(Seq<char>, u32)> {
    Seq::new(tags.len(), |i: int| tags[i]@)
}

/// A classifier as a mathematical value: its two vocabularies and the
/// number of tags it selects from each.
pub struct Config {
    pub general: Seq<Seq<char>>,
    pub character: Seq<Seq<char>>,
    pub k: nat,
}

/// A prediction as a mathematical value: the tags of each vocabulary, in
/// ranking order.
pub struct Ranked {
    pub general: Seq<(Seq<char>, u32)>,
    pub character: Seq<(Seq<char>, u32)>,
}

/// The tags at the selected positions: each name with its score.
pub open spec fn tags_of(names: Seq<Seq<char>>, scores: Seq<u32>, picked: Seq<usize>) -> Seq<
    (Seq<char>, u32),
> {
    Seq::new(picked.len(), |i: int| (names[picked[i] as int], scores[picked[i] as int]))
}

/// The general tags of a prediction: of the general vocabulary's
/// probabilities, those above one half are candidates, and the `k` highest
/// are taken.
pub open spec fn general_of(config: Config, probs: Seq<u32>) -> Seq<(Seq<char>, u32)> {
    tags_of(config.general, probs, top_k_of(probs, true, config.k))
}

/// The logits that are handed out for the logistic transform: those of the
/// `k` character tags with the highest logits, highest first.
pub open spec fn selected_logits(config: Config, logits: Seq<u32>) -> Seq<u32> {
    let picked = top_k_of(logits, false, config.k);
    Seq::new(picked.len(), |i: int| logits[picked[i] as int])
}

/// The character tags of a prediction: the names of the `k` character tags
/// with the highest logits, each with the value that the logistic transform
/// gave for its logit.
pub open spec fn character_of(config: Config, logits: Seq<u32>, values: Seq<u32>) -> Seq<
    (Seq<char>, u32),
> {
    let picked = top_k_of(logits, false, config.k);
    Seq::new(picked.len(), |i: int| (config.character[picked[i] as int], values[i]))
}

/// The prediction for the probabilities of the general tags, the logits of
/// the character tags, and the logistic values of the selected logits.
pub open spec fn predicted(
    config: Config,
    probs: Seq<u32>,
    logits: Seq<u32>,
    values: Seq<u32>,
) -> Ranked {
    Ranked { general: general_of(config, probs), character: character_of(config, logits, values) }
}

/// Whether the scores descend under the total order: no tag has a higher
/// key than one before it.
pub open spec fn descending(tags: Seq<(Seq<char>, u32)>) -> bool {
    forall|i: int, j: int|
        0 <= i < j < tags.len() ==> key_of((#[trigger] tags[i]).1) >= key_of((#[trigger] tags[j]).1)
}

/// Whether the parts of the secondary model agree with each other: its
/// bias has an entry for each column of its matrix.
pub open spec fn loadable(params: Params) -> bool {
    params.secondary_bias == params.secondary_outputs
}

/// Whether the vocabularies agree with the shapes of the models: the
/// network puts out a score for each general tag, and the secondary model's
/// matrix has a row for each general tag and a column for each character
/// tag.
pub open spec fn consistent(params: Params) -> bool {
    &&& params.general_tags@.len() <= params.network_outputs
    &&& params.general_tags@.len() == params.secondary_inputs
    &&& params.character_tags@.len() == params.secondary_outputs
}

/// Two vocabularies and the number of tags to select from each.
pub struct Classifier {
    general_tags: Vec<String>,
    character_tags: Vec<String>,
    topk: usize,
}

impl View for Classifier {
    type V = Config;

    closed spec fn view(&self) -> Config {
        Config {
            general: names_of(self.general_tags@),
            character: names_of(self.character_tags@),
            k: self.topk as nat,
        }
    }
}

/// The tags of a prediction.
pub struct Prediction<'a> {
    general_tags: Vec<Tag<'a>>,
    character_tags: Vec<Tag<'a>>,
}

impl View for Prediction<'_> {
    type V = Ranked;

    closed spec fn view(&self) -> Ranked {
        Ranked {
            general: tags_view(self.general_tags@),
            character: tags_view(self.character_tags@),
        }
    }
}

impl<'a> Prediction<'a> {
    /// The general tags, highest score first.
    pub fn general(&self) -> (tags: &[Tag<'a>])
        ensures
            tags_view(tags@) == self@.general,
    {
        self.general_tags.as_slice()
    }

    /// The character tags, highest logit first.
    pub fn character(&self) -> (tags: &[Tag<'a>])
        ensures
            tags_view(tags@) == self@.character,
    {
        self.character_tags.as_slice()
    }
}

impl Classifier {
    /// A classifier for the vocabularies.
    ///
    /// A secondary model whose bias does not go with its matrix is an
    /// `Error::Load`. Vocabularies that do not agree with the shapes of the
    /// models are an `Error::ConfigMismatch`.
    pub fn new(params: Params) -> (r: Result<Classifier, Error>)
        ensures
            match r {
                Ok(classifier) => {
                    &&& loadable(params)
                    &&& consistent(params)
                    &&& classifier@.general == names_of(params.general_tags@)
                    &&& classifier@.character == names_of(params.character_tags@)
                    &&& classifier@.k == params.topk
                },
                Err(e) => if loadable(params) {
                    e == Error::ConfigMismatch && !consistent(params)
                } else {
                    e == Error::Load
                },
            },
    {
        if params.secondary_bias != params.secondary_outputs {
            return Err(Error::Load);
        }
        if params.general_tags.len() > params.network_outputs || params.general_tags.len()
            != params.secondary_inputs || params.character_tags.len() != params.secondary_outputs {
            return Err(Error::ConfigMismatch);
        }
        Ok(
            Classifier {
                general_tags: params.general_tags,
                character_tags: params.character_tags,
                topk: params.topk,
            },
        )
    }

    /// Begins a prediction: prepares the network's input for the image.
    pub fn predict<'a>(&'a self, img: RgbImage) -> (r: Result<Inference<'a>, Error>)
        requires
            input_in_reach(img@.width),
        ensures
            match r {
                Ok(stage) => stage.config() == self@ && input_tensor_of(img@) == Some(
                    stage.tensor_view(),
                ),
                Err(e) => e == Error::Resize && input_tensor_of(img@).is_none(),
            },
    {
        match input_tensor(img) {
            Ok(tensor) => Ok(Inference { classifier: self, tensor }),
            Err(e) => Err(e),
        }
    }
}

/// The stage of a prediction at which the network is to be run.
pub struct Inference<'a> {
    classifier: &'a Classifier,
    tensor: Vec<u8>,
}

impl<'a> Inference<'a> {
    #[verifier::type_invariant]
    spec fn inv(self) -> bool {
        self.tensor@.len() == 3 * 512 * 512
    }

    /// The classifier that makes the prediction.
    pub closed spec fn config(self) -> Config {
        self.classifier@
    }

    /// The network's input.
    pub closed spec fn tensor_view(self) -> Seq<u8> {
        self.tensor@
    }

    /// The network's input, of the shape 1 by 3 by 512 by 512: the samples
    /// of the prepared image, channel by channel. The network takes each
    /// divided by 255.
    pub fn tensor(&self) -> (tensor: &Vec<u8>)
        ensures
            tensor@ == self.tensor_view(),
            tensor@.len() == 3 * 512 * 512,
    {
        proof {
            use_type_invariant(self);
        }
        &self.tensor
    }

    /// Takes the network's scores and selects the general tags.
    ///
    /// The first scores are the probabilities of the general tags, one for
    /// each name of the vocabulary. Of those above one half, the `k` highest
    /// are selected. Fewer scores than the vocabulary has names are an
    /// `Error::Inference`.
    pub fn scored(self, scores: &Vec<u32>) -> (r: Result<Projection<'a>, Error>)
        ensures
            match r {
                Ok(stage) => {
                    &&& self.config().general.len() <= scores@.len()
                    &&& stage.config() == self.config()
                    &&& stage.probs_view() == scores@.take(self.config().general.len() as int)
                    &&& stage.general_view() == general_of(stage.config(), stage.probs_view())
                    &&& stage.general_view().len() <= stage.config().k
                    &&& stage.general_view().len() <= candidate_count(
                        stage.probs_view(),
                        true,
                        stage.probs_view().len(),
                    )
                    &&& stage.general_view().len() == stage.config().k
                        || stage.general_view().len() == candidate_count(
                        stage.probs_view(),
                        true,
                        stage.probs_view().len(),
                    )
                    &&& forall|i: int|
                        0 <= i < stage.general_view().len() ==> exceeds_half(
                            (#[trigger] stage.general_view()[i]).1,
                        )
                    &&& descending(stage.general_view())
                },
                Err(e) => e == Error::Inference && scores@.len() < self.config().general.len(),
            },
    {
        let classifier = self.classifier;
        let n = classifier.general_tags.len();
        if scores.len() < n {
            return Err(Error::Inference);
        }
        let mut probs: Vec<u32> = Vec::new();
        let mut i: usize = 0;
        while i < n
            invariant
                n <= scores.len(),
                i <= n,
                probs@ == scores@.take(i as int),
            decreases n - i,
        {
            probs.push(scores[i]);
            i += 1;
        }
        let picked = top_k(&probs, true, classifier.topk);
        let general = tags_at(&classifier.general_tags, &probs, &picked);
        proof {
            lemma_general_ranked(classifier@, probs@);
        }
        Ok(Projection { classifier, general, probs })
    }
}

/// What holds of the general tags: there are no more than `k`, and `k`
/// where there are that many candidates; each has a score above one half;
/// and the scores descend.
pub proof fn lemma_general_ranked(config: Config, probs: Seq<u32>)
    requires
        probs.len() <= usize::MAX,
    ensures
        general_of(config, probs).len() <= config.k,
        general_of(config, probs).len() <= candidate_count(probs, true, probs.len()),
        general_of(config, probs).len() == config.k || general_of(config, probs).len()
            == candidate_count(probs, true, probs.len()),
        forall|i: int|
            0 <= i < general_of(config, probs).len() ==> exceeds_half(
                (#[trigger] general_of(config, probs)[i]).1,
            ),
        descending(general_of(config, probs)),
{
    let picked = top_k_of(probs, true, config.k);
    lemma_top_k_exists(probs, true, config.k);
    lemma_top_k_above_half(probs, config.k, picked);
    lemma_top_k_descending(probs, true, config.k, picked);
    let tags = general_of(config, probs);
    assert forall|i: int| 0 <= i < tags.len() implies exceeds_half((#[trigger] tags[i]).1) by {}
    assert forall|i: int, j: int| 0 <= i < j < tags.len() implies key_of((#[trigger] tags[i]).1)
        >= key_of((#[trigger] tags[j]).1) by {}
}

/// The tags at the selected positions of a vocabulary.
fn tags_at<'a>(vocabulary: &'a Vec<String>, scores: &Vec<u32>, picked: &Vec<usize>) -> (tags: Vec<
    Tag<'a>,
>)
    requires
        forall|i: int|
            0 <= i < picked@.len() ==> (#[trigger] picked@[i]) < vocabulary@.len() && picked@[i]
                < scores@.len(),
    ensures
        tags_view(tags@) == tags_of(names_of(vocabulary@), scores@, picked@),
{
    let mut tags: Vec<Tag<'a>> = Vec::new();
    let mut i: usize = 0;
    while i < picked.len()
        invariant
            i <= picked@.len(),
            tags@.len() == i,
            forall|j: int|
                0 <= j < picked@.len() ==> (#[trigger] picked@[j]) < vocabulary@.len()
                    && picked@[j] < scores@.len(),
            forall|j: int|
                0 <= j < i ==> (#[trigger] tags@[j])@ == (
                    vocabulary@[picked@[j] as int]@,
                    scores@[picked@[j] as int],
                ),
        decreases picked@.len() - i,
    {
        let at = picked[i];
        tags.push(Tag { name: vocabulary[at].as_str(), score: scores[at] });
        i += 1;
    }
    tags
}

/// The stage of a prediction at which the secondary model is to be applied.
pub struct Projection<'a> {
    classifier: &'a Classifier,
    general: Vec<Tag<'a>>,
    probs: Vec<u32>,
}

impl<'a> Projection<'a> {
    #[verifier::type_invariant]
    spec fn inv(self) -> bool {
        &&& self.probs@.len() == self.classifier.general_tags@.len()
        &&& tags_view(self.general@) == general_of(self.classifier@, self.probs@)
    }

    /// The classifier that makes the prediction.
    pub closed spec fn config(self) -> Config {
        self.classifier@
    }

    /// The probabilities of the general tags.
    pub closed spec fn probs_view(self) -> Seq<u32> {
        self.probs@
    }

    /// The general tags that were selected.
    pub closed spec fn general_view(self) -> Seq<(Seq<char>, u32)> {
        tags_view(self.general@)
    }

    /// The probabilities of the general tags, all of them and as the network
    /// gave them: the input of the secondary model.
    pub fn probs(&self) -> (probs: &Vec<u32>)
        ensures
            probs@ == self.probs_view(),
            probs@.len() == self.config().general.len(),
    {
        proof {
            use_type_invariant(self);
        }
        &self.probs
    }

    /// Takes the logits of the secondary model and selects the character
    /// tags.
    ///
    /// There is one logit for each name of the character vocabulary, else
    /// the result is `Error::Inference`. The `k` highest are selected, with
    /// no threshold.
    pub fn projected(self, logits: &Vec<u32>) -> (r: Result<Squashing<'a>, Error>)
        ensures
            match r {
                Ok(stage) => {
                    &&& logits@.len() == self.config().character.len()
                    &&& stage.config() == self.config()
                    &&& stage.probs_view() == self.probs_view()
                    &&& stage.general_view() == self.general_view()
                    &&& stage.source_view() == logits@
                    &&& stage.logits_view() == selected_logits(stage.config(), logits@)
                },
                Err(e) => e == Error::Inference && logits@.len() != self.config().character.len(),
            },
    {
        proof {
            use_type_invariant(&self);
        }
        let classifier = self.classifier;
        if logits.len() != classifier.character_tags.len() {
            return Err(Error::Inference);
        }
        let picked = top_k(logits, false, classifier.topk);
        let mut selected: Vec<u32> = Vec::new();
        let mut i: usize = 0;
        while i < picked.len()
            invariant
                i <= picked@.len(),
                selected@.len() == i,
                is_top_k(logits@, false, classifier.topk as nat, picked@),
                forall|j: int| 0 <= j < i ==> #[trigger] selected@[j] == logits@[picked@[j] as int],
            decreases picked@.len() - i,
        {
            selected.push(logits[picked[i]]);
            i += 1;
        }
        proof {
            assert(selected@ =~= selected_logits(classifier@, logits@));
        }
        Ok(
            Squashing {
                classifier,
                general: self.general,
                picked,
                logits: selected,
                probs: Ghost(self.probs@),
                source: Ghost(logits@),
            },
        )
    }
}

/// The stage of a prediction at which the logistic transform is to be
/// applied.
pub struct Squashing<'a> {
    classifier: &'a Classifier,
    general: Vec<Tag<'a>>,
    picked: Vec<usize>,
    logits: Vec<u32>,
    probs: Ghost<Seq<u32>>,
    source: Ghost<Seq<u32>>,
}

impl<'a> Squashing<'a> {
    #[verifier::type_invariant]
    spec fn inv(self) -> bool {
        &&& self.probs@.len() == self.classifier.general_tags@.len()
        &&& tags_view(self.general@) == general_of(self.classifier@, self.probs@)
        &&& self.source@.len() == self.classifier.character_tags@.len()
        &&& is_top_k(self.source@, false, self.classifier.topk as nat, self.picked@)
        &&& self.picked@ == top_k_of(self.source@, false, self.classifier.topk as nat)
        &&& self.logits@ == selected_logits(self.classifier@, self.source@)
    }

    /// The classifier that makes the prediction.
    pub closed spec fn config(self) -> Config {
        self.classifier@
    }

    /// The probabilities of the general tags.
    pub closed spec fn probs_view(self) -> Seq<u32> {
        self.probs@
    }

    /// The general tags that were selected.
    pub closed spec fn general_view(self) -> Seq<(Seq<char>, u32)> {
        tags_view(self.general@)
    }

    /// The logits of all character tags.
    pub closed spec fn source_view(self) -> Seq<u32> {
        self.source@
    }

    /// The logits of the character tags that were selected.
    pub closed spec fn logits_view(self) -> Seq<u32> {
        self.logits@
    }

    /// The logits of the selected character tags, highest first: the input
    /// of the logistic transform.
    pub fn logits(&self) -> (logits: &Vec<u32>)
        ensures
            logits@ == self.logits_view(),
            logits@ == selected_logits(self.config(), self.source_view()),
    {
        proof {
            use_type_invariant(self);
        }
        &self.logits
    }

    /// Takes the logistic value of each selected logit and assembles the
    /// prediction.
    ///
    /// There is one value for each selected logit, in the same order, else
    /// the result is `Error::Inference`. The general tags have scores above
    /// one half, in descending order. The character tags are in the order of
    /// their logits; their scores descend as well where the values follow the
    /// logits, that is where no value is higher than that of a higher logit.
    pub fn squashed(self, values: &Vec<u32>) -> (r: Result<Prediction<'a>, Error>)
        ensures
            match r {
                Ok(prediction) => {
                    &&& values@.len() == self.logits_view().len()
                    &&& prediction@ == predicted(
                        self.config(),
                        self.probs_view(),
                        self.source_view(),
                        values@,
                    )
                    &&& is_prediction(
                        self.config(),
                        self.probs_view(),
                        self.source_view(),
                        values@,
                        prediction@,
                    )
                    &&& prediction@.general == self.general_view()
                    &&& prediction@.general.len() <= self.config().k
                    &&& prediction@.general.len() == self.config().k
                        || prediction@.general.len() == candidate_count(
                        self.probs_view(),
                        true,
                        self.probs_view().len(),
                    )
                    &&& prediction@.character.len() <= self.config().k
                    &&& prediction@.character.len() == self.config().k
                        || prediction@.character.len() == self.config().character.len()
                    &&& forall|i: int|
                        0 <= i < prediction@.general.len() ==> exceeds_half(
                            (#[trigger] prediction@.general[i]).1,
                        )
                    &&& descending(prediction@.general)
                    &&& descending(
                        tags_of(
                            self.config().character,
                            self.source_view(),
                            top_k_of(self.source_view(), false, self.config().k),
                        ),
                    )
                    &&& follows(self.logits_view(), values@) ==> descending(prediction@.character)
                },
                Err(e) => e == Error::Inference && values@.len() != self.logits_view().len(),
            },
    {
        proof {
            use_type_invariant(&self);
        }
        let classifier = self.classifier;
        if values.len() != self.logits.len() {
            return Err(Error::Inference);
        }
        let general_names = classifier.general_tags.len();
        let character_names = classifier.character_tags.len();
        assert(self.probs@.len() == general_names && self.source@.len() == character_names);
        let mut character: Vec<Tag<'a>> = Vec::new();
        let mut i: usize = 0;
        while i < self.picked.len()
            invariant
                i <= self.picked@.len(),
                self.picked@.len() == values@.len(),
                character@.len() == i,
                is_top_k(self.source@, false, classifier.topk as nat, self.picked@),
                self.source@.len() == classifier.character_tags@.len(),
                forall|j: int|
                    0 <= j < i ==> (#[trigger] character@[j])@ == (
                        classifier.character_tags@[self.picked@[j] as int]@,
                        values@[j],
                    ),
            decreases self.picked@.len() - i,
        {
            let at = self.picked[i];
            character.push(Tag { name: classifier.character_tags[at].as_str(), score: values[i] });
            i += 1;
        }
        proof {
            assert(tags_view(character@) =~= character_of(classifier@, self.source@, values@));
            lemma_general_ranked(classifier@, self.probs@);
            lemma_character_ranked(classifier@, self.source@, values@);
            lemma_top_k_exists(self.probs@, true, classifier@.k);
            let general = top_k_of(self.probs@, true, classifier@.k);
            assert(tags_of(classifier@.character, self.source@, self.picked@).len()
                == values@.len());
            assert(is_prediction(
                classifier@,
                self.probs@,
                self.source@,
                values@,
                predicted(classifier@, self.probs@, self.source@, values@),
            ));
        }
        Ok(Prediction { general_tags: self.general, character_tags: character })
    }
}

/// Whether the values follow the logits: no value has a higher key than the
/// value of a logit with a higher or equal key.
pub open spec fn follows(logits: Seq<u32>, values: Seq<u32>) -> bool {
    forall|i: int, j: int|
        0 <= i < logits.len() && 0 <= j < logits.len() && key_of(#[trigger] logits[i]) >= key_of(
            #[trigger] logits[j],
        ) ==> key_of(values[i]) >= key_of(values[j])
}

/// What holds of the character tags: there are `k`, or as many as the
/// vocabulary has names where those are fewer; their logits descend; and
/// their scores descend where the logistic values follow the logits.
pub proof fn lemma_character_ranked(config: Config, logits: Seq<u32>, values: Seq<u32>)
    requires
        logits.len() <= usize::MAX,
        values.len() == selected_logits(config, logits).len(),
    ensures
        character_of(config, logits, values).len() <= config.k,
        character_of(config, logits, values).len() == config.k || character_of(
            config,
            logits,
            values,
        ).len() == logits.len(),
        descending(tags_of(config.character, logits, top_k_of(logits, false, config.k))),
        follows(selected_logits(config, logits), values) ==> descending(
            character_of(config, logits, values),
        ),
{
    let picked = top_k_of(logits, false, config.k);
    lemma_top_k_exists(logits, false, config.k);
    lemma_candidate_count_bound(logits, false, logits.len());
    lemma_top_k_descending(logits, false, config.k, picked);
    let by_logit = tags_of(config.character, logits, picked);
    assert forall|i: int, j: int| 0 <= i < j < by_logit.len() implies key_of(
        (#[trigger] by_logit[i]).1,
    ) >= key_of((#[trigger] by_logit[j]).1) by {}
    let selected = selected_logits(config, logits);
    let tags = character_of(config, logits, values);
    if follows(selected, values) {
        assert forall|i: int, j: int| 0 <= i < j < tags.len() implies key_of((#[trigger] tags[i]).1)
            >= key_of((#[trigger] tags[j]).1) by {
            assert(key_of(selected[i]) >= key_of(selected[j]));
        }
    }
}

/// Whether `made` is a prediction for the probabilities of the general tags,
/// the logits of the character tags, and the logistic values of the selected
/// logits: its general tags are a selection, above one half, from the
/// probabilities, and its character tags a selection from the logits, each
/// with the value that belongs to it.
pub open spec fn is_prediction(
    config: Config,
    probs: Seq<u32>,
    logits: Seq<u32>,
    values: Seq<u32>,
    made: Ranked,
) -> bool {
    exists|general: Seq<usize>, character: Seq<usize>|
        {
            &&& is_top_k(probs, true, config.k, general)
            &&& #[trigger] tags_of(config.general, probs, general) == made.general
            &&& is_top_k(logits, false, config.k, character)
            &&& made.character == Seq::new(
                character.len(),
                |i: int| (config.character[character[i] as int], values[i]),
            )
            &&& #[trigger] tags_of(config.character, logits, character).len() == values.len()
        }
}

/// The same classifier, probabilities, logits and logistic values give the
/// same prediction: there is no second one.
pub proof fn lemma_prediction_determined(
    config: Config,
    probs: Seq<u32>,
    logits: Seq<u32>,
    values: Seq<u32>,
    first: Ranked,
    second: Ranked,
)
    requires
        is_prediction(config, probs, logits, values, first),
        is_prediction(config, probs, logits, values, second),
    ensures
        first == second,
        first == predicted(config, probs, logits, values),
{
    lemma_prediction_is_predicted(config, probs, logits, values, first);
    lemma_prediction_is_predicted(config, probs, logits, values, second);
}

/// A prediction is the prediction.
proof fn lemma_prediction_is_predicted(
    config: Config,
    probs: Seq<u32>,
    logits: Seq<u32>,
    values: Seq<u32>,
    made: Ranked,
)
    requires
        is_prediction(config, probs, logits, values, made),
    ensures
        made == predicted(config, probs, logits, values),
{
    let (general, character) = choose|general: Seq<usize>, character: Seq<usize>|
        {
            &&& is_top_k(probs, true, config.k, general)
            &&& #[trigger] tags_of(config.general, probs, general) == made.general
            &&& is_top_k(logits, false, config.k, character)
            &&& made.character == Seq::new(
                character.len(),
                |i: int| (config.character[character[i] as int], values[i]),
            )
            &&& #[trigger] tags_of(config.character, logits, character).len() == values.len()
        };
    lemma_top_k_is_chosen(probs, true, config.k, general);
    lemma_top_k_is_chosen(logits, false, config.k, character);
}

} // verus!

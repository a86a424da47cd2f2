/* A C face of libx265 for the application: the calls whose names carry the build number, and the
   structures whose layout only the header knows. */

#include <stdint.h>
#include <stdlib.h>
#include <string.h>
#include <x265.h>

struct loom_x265_settings {
    int32_t source_width;
    int32_t source_height;
    uint32_t fps_num;
    uint32_t fps_denom;
    int32_t bframes;
    int32_t max_num_references;
    int32_t keyframe_max;
    int32_t keyframe_min;
    int32_t scenecut_threshold;
    int32_t repeat_headers;
    int32_t bitrate;
    int32_t vbv_max_bitrate;
    int32_t vbv_buffer_size;
};

struct loom_x265_nal {
    uint32_t kind;
    uint32_t size;
    const uint8_t *payload;
};

struct loom_x265 {
    x265_param *param;
    x265_encoder *enc;
    struct loom_x265_nal *nals;
    uint32_t room;
};

enum { FAILED_PARAM = 1, FAILED_PRESET = 2, FAILED_OPEN = 3 };

void loom_x265_close(struct loom_x265 *e)
{
    if (e->enc)
        x265_encoder_close(e->enc);
    if (e->param)
        x265_param_free(e->param);
    free(e->nals);
    free(e);
    x265_cleanup();
}

struct loom_x265 *loom_x265_open(const struct loom_x265_settings *s, int32_t *failure)
{
    struct loom_x265 *e = calloc(1, sizeof *e);
    x265_param *p;

    *failure = FAILED_PARAM;
    if (!e)
        return NULL;
    p = e->param = x265_param_alloc();
    if (!p)
        goto fail;
    if (x265_param_default_preset(p, "ultrafast", "zerolatency") != 0) {
        *failure = FAILED_PRESET;
        goto fail;
    }
    p->logLevel = X265_LOG_NONE;
    p->sourceWidth = s->source_width;
    p->sourceHeight = s->source_height;
    p->fpsNum = s->fps_num;
    p->fpsDenom = s->fps_denom;
    p->internalCsp = X265_CSP_I420;
    p->bframes = s->bframes;
    p->maxNumReferences = s->max_num_references;
    p->keyframeMax = s->keyframe_max;
    p->keyframeMin = s->keyframe_min;
    p->bOpenGOP = 0;
    p->scenecutThreshold = s->scenecut_threshold;
    p->bRepeatHeaders = s->repeat_headers;
    p->bAnnexB = 1;
    p->rc.rateControlMode = X265_RC_ABR;
    p->rc.bitrate = s->bitrate;
    p->rc.vbvMaxBitrate = s->vbv_max_bitrate;
    p->rc.vbvBufferSize = s->vbv_buffer_size;
    e->enc = x265_encoder_open(p);
    if (e->enc)
        return e;
    *failure = FAILED_OPEN;
fail:
    loom_x265_close(e);
    return NULL;
}

int32_t loom_x265_encode(struct loom_x265 *e, const uint8_t *const *planes, const int32_t *strides,
                         int64_t pts, int32_t idr, const struct loom_x265_nal **nals,
                         uint32_t *count)
{
    x265_picture in, out;
    x265_nal *raw = NULL;
    uint32_t i, n = 0;
    int ret;

    memset(&in, 0, sizeof in);
    memset(&out, 0, sizeof out);
    x265_picture_init(e->param, &in);
    for (i = 0; i < 3; i++) {
        in.planes[i] = (void *)planes[i];
        in.stride[i] = strides[i];
    }
    in.pts = pts;
    in.sliceType = idr ? X265_TYPE_IDR : X265_TYPE_P;
    ret = x265_encoder_encode(e->enc, &raw, &n, &in, &out);
    *nals = NULL;
    *count = 0;
    if (ret <= 0 || n == 0)
        return ret;
    if (n > e->room) {
        struct loom_x265_nal *more = realloc(e->nals, n * sizeof *more);
        if (!more)
            return -1;
        e->nals = more;
        e->room = n;
    }
    for (i = 0; i < n; i++) {
        e->nals[i].kind = raw[i].type;
        e->nals[i].size = raw[i].sizeBytes;
        e->nals[i].payload = raw[i].payload;
    }
    *nals = e->nals;
    *count = n;
    return ret;
}
